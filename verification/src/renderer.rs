//! The rasterizer: line drawing with three interchangeable strategies,
//! depth-tested triangle filling with flat shading and texture sampling,
//! and rendering of a whole mesh into the image container.

use crate::geometry::{abs_i, div_floor, Vec2, Vec3, FIXED_ONE};
use crate::tgaimage::{Format, TGAColor, TGAImage};
use vstd::prelude::*;

verus! {

/// Bound on the magnitude of a screen coordinate handed to the triangle
/// rasterizer.
pub const TRI_COORD_LIMIT: i64 = 65536;

/// Bound on the magnitude of a vertex depth.
pub const TRI_DEPTH_LIMIT: i64 = 1048576;

/// Bound on the magnitude of a fixed-point texture coordinate handed to the
/// triangle rasterizer.
pub const TRI_UV_LIMIT: i64 = 1048576;

/// Errors of a triangle draw.
#[derive(Debug, Clone, Copy, PartialEq, Eq, Structural)]
pub enum RenderError {
    /// A texture sample fell outside the texture's bounds; carries the
    /// pixel and the interpolated texture coordinates for diagnosis.
    TextureNotFound { x: i64, y: i64, u: i64, v: i64 },
}

/// Twice the signed area of the triangle `(a, b, p)`: positive when `p`
/// lies to the left of the directed edge from `a` to `b`.
pub open spec fn orient2d(ax: int, ay: int, bx: int, by: int, px: int, py: int) -> int {
    (bx - ax) * (py - ay) - (by - ay) * (px - ax)
}

/// The triangle's determinant: twice its signed area.
pub open spec fn tri_det(t0: Vec3, t1: Vec3, t2: Vec3) -> int {
    orient2d(t0.x as int, t0.y as int, t1.x as int, t1.y as int, t2.x as int, t2.y as int)
}

/// The vertices in counterclockwise order: as given when the determinant is
/// nonnegative, else with the last two exchanged.
pub open spec fn tri_ccw(t0: Vec3, t1: Vec3, t2: Vec3) -> (Vec3, Vec3, Vec3) {
    if tri_det(t0, t1, t2) >= 0 {
        (t0, t1, t2)
    } else {
        (t0, t2, t1)
    }
}

/// Whether pixels exactly on the edge from `a` to `b` belong to this
/// triangle: the boundary is kept on edges that go upward, or leftward when
/// horizontal, so that an edge shared by two triangles feeds its pixels to
/// only one of them. The weight of a kept boundary must reach 0, of a
/// dropped one 1.
pub open spec fn edge_bias(ax: int, ay: int, bx: int, by: int) -> int {
    if ay < by || (ay == by && ax > bx) {
        0
    } else {
        1
    }
}

pub open spec fn min3(a: int, b: int, c: int) -> int {
    if a <= b && a <= c {
        a
    } else if b <= c {
        b
    } else {
        c
    }
}

pub open spec fn max3(a: int, b: int, c: int) -> int {
    if a >= b && a >= c {
        a
    } else if b >= c {
        b
    } else {
        c
    }
}

/// Whether the triangle's fill covers pixel `(px, py)`: the triangle is not
/// degenerate, the pixel lies in the vertices' bounding box, and all three
/// barycentric weights pass their edge's boundary rule.
pub open spec fn tri_covered(t0: Vec3, t1: Vec3, t2: Vec3, px: int, py: int) -> bool {
    let abc = tri_ccw(t0, t1, t2);
    let a = abc.0;
    let b = abc.1;
    let c = abc.2;
    &&& tri_det(t0, t1, t2) != 0
    &&& min3(t0.x as int, t1.x as int, t2.x as int) <= px <= max3(
        t0.x as int,
        t1.x as int,
        t2.x as int,
    )
    &&& min3(t0.y as int, t1.y as int, t2.y as int) <= py <= max3(
        t0.y as int,
        t1.y as int,
        t2.y as int,
    )
    &&& orient2d(b.x as int, b.y as int, c.x as int, c.y as int, px, py) >= edge_bias(
        b.x as int,
        b.y as int,
        c.x as int,
        c.y as int,
    )
    &&& orient2d(c.x as int, c.y as int, a.x as int, a.y as int, px, py) >= edge_bias(
        c.x as int,
        c.y as int,
        a.x as int,
        a.y as int,
    )
    &&& orient2d(a.x as int, a.y as int, b.x as int, b.y as int, px, py) >= edge_bias(
        a.x as int,
        a.y as int,
        b.x as int,
        b.y as int,
    )
}

/// The barycentric interpolation of a per-vertex attribute at `(px, py)`:
/// the weighted combination of the three values, divided (rounding toward
/// negative infinity) by the triangle's doubled area.
pub open spec fn tri_attr(
    t0: Vec3,
    t1: Vec3,
    t2: Vec3,
    a0: int,
    a1: int,
    a2: int,
    px: int,
    py: int,
) -> int {
    let abc = tri_ccw(t0, t1, t2);
    let a = abc.0;
    let b = abc.1;
    let c = abc.2;
    let aa = a0;
    let ab = if tri_det(t0, t1, t2) >= 0 {
        a1
    } else {
        a2
    };
    let ac = if tri_det(t0, t1, t2) >= 0 {
        a2
    } else {
        a1
    };
    let wa = orient2d(b.x as int, b.y as int, c.x as int, c.y as int, px, py);
    let wb = orient2d(c.x as int, c.y as int, a.x as int, a.y as int, px, py);
    let wc = orient2d(a.x as int, a.y as int, b.x as int, b.y as int, px, py);
    (wa * aa + wb * ab + wc * ac) / abs_i(tri_det(t0, t1, t2))
}

/// The interpolated depth at `(px, py)`.
pub open spec fn tri_depth(t0: Vec3, t1: Vec3, t2: Vec3, px: int, py: int) -> int {
    tri_attr(t0, t1, t2, t0.z as int, t1.z as int, t2.z as int, px, py)
}

/// A z-buffer cell after one triangle: the interpolated depth when the
/// triangle covers the pixel and comes nearer (numerically larger) than
/// what the cell holds, else the old value. The cell never decreases.
pub open spec fn zbuf_after(t0: Vec3, t1: Vec3, t2: Vec3, z: int, px: int, py: int) -> int {
    if tri_covered(t0, t1, t2, px, py) && tri_depth(t0, t1, t2, px, py) > z {
        tri_depth(t0, t1, t2, px, py)
    } else {
        z
    }
}

/// A pixel after one triangle that would paint it with `c`: painted exactly
/// when the triangle covers the pixel and wins the depth test against `z`.
pub open spec fn pixel_after(
    t0: Vec3,
    t1: Vec3,
    t2: Vec3,
    c: Seq<u8>,
    z: int,
    oldpix: Seq<u8>,
    px: int,
    py: int,
) -> Seq<u8> {
    if tri_covered(t0, t1, t2, px, py) && tri_depth(t0, t1, t2, px, py) > z {
        c
    } else {
        oldpix
    }
}

/// The horizontal texture sample coordinate for the fixed-point coordinate
/// `u`: its magnitude scaled by the texture's width.
pub open spec fn sample_x(tex: TGAImage, u: int) -> int {
    abs_i(u) * tex.width / (FIXED_ONE as int)
}

/// The vertical texture sample coordinate.
pub open spec fn sample_y(tex: TGAImage, v: int) -> int {
    abs_i(v) * tex.height / (FIXED_ONE as int)
}

/// Whether the sample for `(u, v)` lies inside the texture.
pub open spec fn sample_ok(tex: TGAImage, u: int, v: int) -> bool {
    tex.in_bounds(sample_x(tex, u), sample_y(tex, v))
}

/// The four texel bytes sampled for `(u, v)`, zero-padded beyond the
/// texture's pixel size (B, G, R, A order).
pub open spec fn texel(tex: TGAImage, u: int, v: int) -> Seq<u8> {
    Seq::new(
        4,
        |k: int|
            if k < tex.bytespp {
                tex.data@[tex.pix_off(sample_x(tex, u), sample_y(tex, v)) + k]
            } else {
                0u8
            },
    )
}

/// The color a triangle paints with: the sampled texel with its B, G, R
/// channels scaled by the flat intensity and the alpha channel kept.
pub open spec fn shade(tex: TGAImage, u: int, v: int, intensity: int) -> Seq<u8> {
    let t = texel(tex, u, v);
    seq![
        ((t[0] * intensity) / (FIXED_ONE as int)) as u8,
        ((t[1] * intensity) / (FIXED_ONE as int)) as u8,
        ((t[2] * intensity) / (FIXED_ONE as int)) as u8,
        t[3],
    ]
}

/// The interpolated texture coordinates at `(px, py)`.
pub open spec fn tri_u(
    t0: Vec3,
    t1: Vec3,
    t2: Vec3,
    uv0: Vec2,
    uv1: Vec2,
    uv2: Vec2,
    px: int,
    py: int,
) -> int {
    tri_attr(t0, t1, t2, uv0.x as int, uv1.x as int, uv2.x as int, px, py)
}

pub open spec fn tri_v(
    t0: Vec3,
    t1: Vec3,
    t2: Vec3,
    uv0: Vec2,
    uv1: Vec2,
    uv2: Vec2,
    px: int,
    py: int,
) -> int {
    tri_attr(t0, t1, t2, uv0.y as int, uv1.y as int, uv2.y as int, px, py)
}

/// The color the triangle would paint pixel `(px, py)` with, cut to the
/// image's pixel size.
pub open spec fn tri_shade_at(
    t0: Vec3,
    t1: Vec3,
    t2: Vec3,
    uv0: Vec2,
    uv1: Vec2,
    uv2: Vec2,
    tex: TGAImage,
    intensity: int,
    bpp: int,
    px: int,
    py: int,
) -> Seq<u8> {
    shade(
        tex,
        tri_u(t0, t1, t2, uv0, uv1, uv2, px, py),
        tri_v(t0, t1, t2, uv0, uv1, uv2, px, py),
        intensity,
    ).take(bpp)
}

/// A triangle whose three vertices share one y-coordinate is degenerate and
/// covers no pixel at all.
pub proof fn lemma_degenerate_covers_nothing(t0: Vec3, t1: Vec3, t2: Vec3, px: int, py: int)
    requires
        t0.y == t1.y && t0.y == t2.y,
    ensures
        !tri_covered(t0, t1, t2, px, py),
{
    assert(tri_det(t0, t1, t2) == 0) by (nonlinear_arith)
        requires
            t0.y == t1.y && t0.y == t2.y,
            tri_det(t0, t1, t2) == (t1.x - t0.x) * (t2.y - t0.y) - (t1.y - t0.y) * (t2.x - t0.x),
    ;
}

/// A z-buffer cell after a whole pass of triangle draws, applied in order.
pub open spec fn zbuf_fold(
    ts: Seq<(Vec3, Vec3, Vec3, Seq<u8>)>,
    z0: int,
    px: int,
    py: int,
) -> int
    decreases ts.len(),
{
    if ts.len() == 0 {
        z0
    } else {
        zbuf_fold(ts.skip(1), zbuf_after(ts[0].0, ts[0].1, ts[0].2, z0, px, py), px, py)
    }
}

/// A pixel after a whole pass of triangle draws, each painting with its own
/// color.
pub open spec fn pixel_fold(
    ts: Seq<(Vec3, Vec3, Vec3, Seq<u8>)>,
    z0: int,
    p0: Seq<u8>,
    px: int,
    py: int,
) -> Seq<u8>
    decreases ts.len(),
{
    if ts.len() == 0 {
        p0
    } else {
        pixel_fold(
            ts.skip(1),
            zbuf_after(ts[0].0, ts[0].1, ts[0].2, z0, px, py),
            pixel_after(ts[0].0, ts[0].1, ts[0].2, ts[0].3, z0, p0, px, py),
            px,
            py,
        )
    }
}

/// Nearest-surface-wins over a whole pass: when every triangle of a
/// sequence covers the pixel, their depths are pairwise distinct, and none
/// equals the starting depth, then either every depth loses to the start
/// and the pixel keeps its color, or the deepest (numerically largest)
/// winning triangle leaves its depth in the cell and its color on the
/// pixel, whatever the draw order.
pub proof fn lemma_nearest_wins_sequence(
    ts: Seq<(Vec3, Vec3, Vec3, Seq<u8>)>,
    z0: int,
    p0: Seq<u8>,
    px: int,
    py: int,
)
    requires
        forall|i: int|
            0 <= i < ts.len() ==> tri_covered((#[trigger] ts[i]).0, ts[i].1, ts[i].2, px, py),
        forall|i: int, j: int|
            0 <= i < ts.len() && 0 <= j < ts.len() && i != j ==> tri_depth(
                (#[trigger] ts[i]).0,
                ts[i].1,
                ts[i].2,
                px,
                py,
            ) != tri_depth((#[trigger] ts[j]).0, ts[j].1, ts[j].2, px, py),
        forall|i: int|
            0 <= i < ts.len() ==> tri_depth((#[trigger] ts[i]).0, ts[i].1, ts[i].2, px, py)
                != z0,
    ensures
        (forall|i: int|
            0 <= i < ts.len() ==> tri_depth((#[trigger] ts[i]).0, ts[i].1, ts[i].2, px, py)
                < z0) ==> zbuf_fold(ts, z0, px, py) == z0 && pixel_fold(ts, z0, p0, px, py)
            == p0,
        (exists|i: int|
            0 <= i < ts.len() && tri_depth((#[trigger] ts[i]).0, ts[i].1, ts[i].2, px, py)
                > z0) ==> exists|w: int|
            0 <= w < ts.len() && tri_depth((#[trigger] ts[w]).0, ts[w].1, ts[w].2, px, py) > z0
                && zbuf_fold(ts, z0, px, py) == tri_depth(ts[w].0, ts[w].1, ts[w].2, px, py)
                && pixel_fold(ts, z0, p0, px, py) == ts[w].3 && (forall|i: int|
                0 <= i < ts.len() && i != w ==> tri_depth(
                    (#[trigger] ts[i]).0,
                    ts[i].1,
                    ts[i].2,
                    px,
                    py,
                ) < tri_depth(ts[w].0, ts[w].1, ts[w].2, px, py)),
    decreases ts.len(),
{
    if ts.len() == 0 {
    } else {
        let t0 = ts[0];
        let d0 = tri_depth(t0.0, t0.1, t0.2, px, py);
        let z1 = zbuf_after(t0.0, t0.1, t0.2, z0, px, py);
        let p1 = pixel_after(t0.0, t0.1, t0.2, t0.3, z0, p0, px, py);
        let rest = ts.skip(1);
        assert forall|i: int| 0 <= i < rest.len() implies #[trigger] rest[i] == ts[i + 1] by {}
        if d0 > z0 {
            assert(z1 == d0 && p1 == t0.3);
            lemma_nearest_wins_sequence(rest, d0, t0.3, px, py);
            if forall|i: int|
                0 <= i < rest.len() ==> tri_depth(
                    (#[trigger] rest[i]).0,
                    rest[i].1,
                    rest[i].2,
                    px,
                    py,
                ) < d0 {
                assert(zbuf_fold(ts, z0, px, py) == d0);
                assert(pixel_fold(ts, z0, p0, px, py) == t0.3);
                assert forall|i: int| 0 <= i < ts.len() && i != 0 implies tri_depth(
                    (#[trigger] ts[i]).0,
                    ts[i].1,
                    ts[i].2,
                    px,
                    py,
                ) < d0 by {
                    assert(ts[i] == rest[i - 1]);
                }
                assert(0 <= 0 < ts.len() && tri_depth(ts[0].0, ts[0].1, ts[0].2, px, py) > z0
                    && zbuf_fold(ts, z0, px, py) == tri_depth(ts[0].0, ts[0].1, ts[0].2, px, py)
                    && pixel_fold(ts, z0, p0, px, py) == ts[0].3 && (forall|i: int|
                    0 <= i < ts.len() && i != 0 ==> tri_depth(
                        (#[trigger] ts[i]).0,
                        ts[i].1,
                        ts[i].2,
                        px,
                        py,
                    ) < tri_depth(ts[0].0, ts[0].1, ts[0].2, px, py)));
            } else {
                let e = choose|i: int|
                    0 <= i < rest.len() && tri_depth(
                        (#[trigger] rest[i]).0,
                        rest[i].1,
                        rest[i].2,
                        px,
                        py,
                    ) >= d0;
                assert(tri_depth(rest[e].0, rest[e].1, rest[e].2, px, py) > d0);
                let wr = choose|w: int|
                    0 <= w < rest.len() && tri_depth(
                        (#[trigger] rest[w]).0,
                        rest[w].1,
                        rest[w].2,
                        px,
                        py,
                    ) > d0 && zbuf_fold(rest, d0, px, py) == tri_depth(
                        rest[w].0,
                        rest[w].1,
                        rest[w].2,
                        px,
                        py,
                    ) && pixel_fold(rest, d0, t0.3, px, py) == rest[w].3 && (forall|i: int|
                        0 <= i < rest.len() && i != w ==> tri_depth(
                            (#[trigger] rest[i]).0,
                            rest[i].1,
                            rest[i].2,
                            px,
                            py,
                        ) < tri_depth(rest[w].0, rest[w].1, rest[w].2, px, py));
                let w = wr + 1;
                assert(ts[w] == rest[wr]);
                assert forall|i: int| 0 <= i < ts.len() && i != w implies tri_depth(
                    (#[trigger] ts[i]).0,
                    ts[i].1,
                    ts[i].2,
                    px,
                    py,
                ) < tri_depth(ts[w].0, ts[w].1, ts[w].2, px, py) by {
                    if i != 0 {
                        assert(ts[i] == rest[i - 1]);
                    }
                }
                assert(0 <= w < ts.len() && tri_depth(ts[w].0, ts[w].1, ts[w].2, px, py) > z0
                    && zbuf_fold(ts, z0, px, py) == tri_depth(ts[w].0, ts[w].1, ts[w].2, px, py)
                    && pixel_fold(ts, z0, p0, px, py) == ts[w].3 && (forall|i: int|
                    0 <= i < ts.len() && i != w ==> tri_depth(
                        (#[trigger] ts[i]).0,
                        ts[i].1,
                        ts[i].2,
                        px,
                        py,
                    ) < tri_depth(ts[w].0, ts[w].1, ts[w].2, px, py)));
            }
        } else {
            assert(d0 < z0);
            assert(z1 == z0 && p1 == p0);
            lemma_nearest_wins_sequence(rest, z0, p0, px, py);
            if exists|i: int|
                0 <= i < ts.len() && tri_depth(
                    (#[trigger] ts[i]).0,
                    ts[i].1,
                    ts[i].2,
                    px,
                    py,
                ) > z0 {
                let e = choose|i: int|
                    0 <= i < ts.len() && tri_depth(
                        (#[trigger] ts[i]).0,
                        ts[i].1,
                        ts[i].2,
                        px,
                        py,
                    ) > z0;
                assert(e != 0);
                assert(rest[e - 1] == ts[e]);
                assert(exists|i: int|
                    0 <= i < rest.len() && tri_depth(
                        (#[trigger] rest[i]).0,
                        rest[i].1,
                        rest[i].2,
                        px,
                        py,
                    ) > z0);
                let wr = choose|w: int|
                    0 <= w < rest.len() && tri_depth(
                        (#[trigger] rest[w]).0,
                        rest[w].1,
                        rest[w].2,
                        px,
                        py,
                    ) > z0 && zbuf_fold(rest, z0, px, py) == tri_depth(
                        rest[w].0,
                        rest[w].1,
                        rest[w].2,
                        px,
                        py,
                    ) && pixel_fold(rest, z0, p0, px, py) == rest[w].3 && (forall|i: int|
                        0 <= i < rest.len() && i != w ==> tri_depth(
                            (#[trigger] rest[i]).0,
                            rest[i].1,
                            rest[i].2,
                            px,
                            py,
                        ) < tri_depth(rest[w].0, rest[w].1, rest[w].2, px, py));
                let w = wr + 1;
                assert(ts[w] == rest[wr]);
                assert forall|i: int| 0 <= i < ts.len() && i != w implies tri_depth(
                    (#[trigger] ts[i]).0,
                    ts[i].1,
                    ts[i].2,
                    px,
                    py,
                ) < tri_depth(ts[w].0, ts[w].1, ts[w].2, px, py) by {
                    if i != 0 {
                        assert(ts[i] == rest[i - 1]);
                    }
                }
                assert(0 <= w < ts.len() && tri_depth(ts[w].0, ts[w].1, ts[w].2, px, py) > z0
                    && zbuf_fold(ts, z0, px, py) == tri_depth(ts[w].0, ts[w].1, ts[w].2, px, py)
                    && pixel_fold(ts, z0, p0, px, py) == ts[w].3 && (forall|i: int|
                    0 <= i < ts.len() && i != w ==> tri_depth(
                        (#[trigger] ts[i]).0,
                        ts[i].1,
                        ts[i].2,
                        px,
                        py,
                    ) < tri_depth(ts[w].0, ts[w].1, ts[w].2, px, py)));
            }
        }
    }
}

/// Nearest-surface-wins: when two triangles cover one pixel with distinct
/// winning depths, drawing them in either order leaves the larger depth in
/// the z-buffer cell and that triangle's color on the pixel.
pub proof fn lemma_nearest_wins(
    a0: Vec3,
    a1: Vec3,
    a2: Vec3,
    b0: Vec3,
    b1: Vec3,
    b2: Vec3,
    ca: Seq<u8>,
    cb: Seq<u8>,
    z0: int,
    p0: Seq<u8>,
    px: int,
    py: int,
)
    requires
        tri_covered(a0, a1, a2, px, py),
        tri_covered(b0, b1, b2, px, py),
        tri_depth(a0, a1, a2, px, py) > z0,
        tri_depth(b0, b1, b2, px, py) > z0,
        tri_depth(a0, a1, a2, px, py) != tri_depth(b0, b1, b2, px, py),
    ensures
        zbuf_after(b0, b1, b2, zbuf_after(a0, a1, a2, z0, px, py), px, py) == (
        if tri_depth(a0, a1, a2, px, py) >= tri_depth(b0, b1, b2, px, py) {
            tri_depth(a0, a1, a2, px, py)
        } else {
            tri_depth(b0, b1, b2, px, py)
        }),
        pixel_after(
            b0,
            b1,
            b2,
            cb,
            zbuf_after(a0, a1, a2, z0, px, py),
            pixel_after(a0, a1, a2, ca, z0, p0, px, py),
            px,
            py,
        ) == (if tri_depth(b0, b1, b2, px, py) > tri_depth(a0, a1, a2, px, py) {
            cb
        } else {
            ca
        }),
{
}

/// Bound on the magnitude of a line endpoint coordinate.
pub const LINE_LIMIT: i64 = 1048576;

/// The renderer: an image container plus its dimensions.
pub struct Renderer {
    pub width: i32,
    pub height: i32,
    pub image: TGAImage,
}

/// Which line-drawing strategy a draw call uses. All strategies touch the
/// same pixels for a given line up to rounding: the parametric strategy
/// rounds the interpolated coordinate toward negative infinity, while the
/// two accumulated-error strategies round half away from the start.
#[derive(Clone, Copy, Debug, PartialEq, Eq, Structural)]
pub enum OptimizationLevel {
    /// Parametric interpolation of the minor coordinate at every step.
    Level0,
    /// Accumulated error: step the minor coordinate when the fractional
    /// error passes one half.
    Level1,
    /// Integer-only accumulated error with the threshold doubled.
    Level2,
}

/// The normalized frame of a line: endpoints transposed when the line is
/// steep (so every strategy steps along the dominant axis) and ordered left
/// to right.
pub struct LineFrame {
    pub x0: int,
    pub y0: int,
    pub x1: int,
    pub y1: int,
    pub steep: bool,
}

/// Normalizes a line's endpoints into a frame.
pub open spec fn line_frame(ax: int, ay: int, bx: int, by: int) -> LineFrame {
    let steep = abs_i(ax - bx) < abs_i(ay - by);
    let cx0 = if steep {
        ay
    } else {
        ax
    };
    let cy0 = if steep {
        ax
    } else {
        ay
    };
    let cx1 = if steep {
        by
    } else {
        bx
    };
    let cy1 = if steep {
        bx
    } else {
        by
    };
    if cx0 > cx1 {
        LineFrame { x0: cx1, y0: cy1, x1: cx0, y1: cy0, steep }
    } else {
        LineFrame { x0: cx0, y0: cy0, x1: cx1, y1: cy1, steep }
    }
}

/// The parametric strategy's minor coordinate at step `n`: exact linear
/// interpolation rounded toward negative infinity. A single-point line
/// keeps its own minor coordinate.
pub open spec fn line_parametric_y(f: LineFrame, n: int) -> int {
    if f.x1 == f.x0 {
        f.y0
    } else {
        f.y0 + n * (f.y1 - f.y0) / (f.x1 - f.x0)
    }
}

/// The accumulated-error strategies' state after `n` steps: the minor
/// coordinate and the error term, kept in units of `1 / (2 * dx)`. Each
/// step gains `2 * |dy|`; above `dx` the minor coordinate advances one unit
/// toward the far endpoint.
pub open spec fn line_error_state(f: LineFrame, n: nat) -> (int, int)
    decreases n,
{
    if n == 0 {
        (f.y0, 0)
    } else {
        let p = line_error_state(f, (n - 1) as nat);
        let e2 = p.1 + 2 * abs_i(f.y1 - f.y0);
        if e2 > f.x1 - f.x0 {
            ((if f.y1 > f.y0 {
                p.0 + 1
            } else {
                p.0 - 1
            }), e2 - 2 * (f.x1 - f.x0))
        } else {
            (p.0, e2)
        }
    }
}

/// The minor coordinate that a strategy gives the pixel at step `n`.
pub open spec fn line_strategy_y(level: OptimizationLevel, f: LineFrame, n: nat) -> int {
    match level {
        OptimizationLevel::Level0 => line_parametric_y(f, n as int),
        OptimizationLevel::Level1 => line_error_state(f, n).0,
        OptimizationLevel::Level2 => line_error_state(f, n).0,
    }
}

/// Whether the pixel at step `n` of the frame is `(px, py)`.
pub open spec fn line_pixel_is(
    level: OptimizationLevel,
    f: LineFrame,
    n: nat,
    px: int,
    py: int,
) -> bool {
    let maj = f.x0 + n;
    let min = line_strategy_y(level, f, n);
    if f.steep {
        px == min && py == maj
    } else {
        px == maj && py == min
    }
}

/// Whether strategy `level` touches `(px, py)` within the first `lim` steps
/// of the frame.
pub open spec fn line_hits_upto(
    level: OptimizationLevel,
    f: LineFrame,
    lim: int,
    px: int,
    py: int,
) -> bool {
    exists|n: nat| n < lim && #[trigger] line_pixel_is(level, f, n, px, py)
}

/// Whether strategy `level` for the line from `(ax, ay)` to `(bx, by)`
/// touches the pixel `(px, py)`.
pub open spec fn line_hits(
    level: OptimizationLevel,
    ax: int,
    ay: int,
    bx: int,
    by: int,
    px: int,
    py: int,
) -> bool {
    let f = line_frame(ax, ay, bx, by);
    line_hits_upto(level, f, f.x1 - f.x0 + 1, px, py)
}

/// The two accumulated-error strategies touch exactly the same pixels: in
/// exact integer arithmetic the fractional-error recurrence and the
/// doubled-threshold integer recurrence coincide step for step.
pub proof fn lemma_error_strategies_agree(
    ax: int,
    ay: int,
    bx: int,
    by: int,
    px: int,
    py: int,
)
    ensures
        line_hits(OptimizationLevel::Level1, ax, ay, bx, by, px, py) == line_hits(
            OptimizationLevel::Level2,
            ax,
            ay,
            bx,
            by,
            px,
            py,
        ),
{
    let f = line_frame(ax, ay, bx, by);
    assert forall|n: nat|
        line_pixel_is(OptimizationLevel::Level1, f, n, px, py) == line_pixel_is(
            OptimizationLevel::Level2,
            f,
            n,
            px,
            py,
        ) by {
        assert(line_strategy_y(OptimizationLevel::Level1, f, n) == line_strategy_y(
            OptimizationLevel::Level2,
            f,
            n,
        ));
    }
}

/// The products of an edge-function evaluation stay well inside `i64` when
/// the vertices and the pixel are bounded.
proof fn lemma_orient_products_bounded(a: Vec3, b: Vec3, c: Vec3, px: int, py: int)
    requires
        -TRI_COORD_LIMIT <= a.x <= TRI_COORD_LIMIT,
        -TRI_COORD_LIMIT <= a.y <= TRI_COORD_LIMIT,
        -TRI_COORD_LIMIT <= b.x <= TRI_COORD_LIMIT,
        -TRI_COORD_LIMIT <= b.y <= TRI_COORD_LIMIT,
        -TRI_COORD_LIMIT <= c.x <= TRI_COORD_LIMIT,
        -TRI_COORD_LIMIT <= c.y <= TRI_COORD_LIMIT,
        0 <= px <= 0xFFFF,
        0 <= py <= 0xFFFF,
    ensures
        -0x4_0000_0000 <= (c.x - b.x) as int * (py - b.y) <= 0x4_0000_0000,
        -0x4_0000_0000 <= (c.y - b.y) as int * (px - b.x) <= 0x4_0000_0000,
        -0x4_0000_0000 <= (a.x - c.x) as int * (py - c.y) <= 0x4_0000_0000,
        -0x4_0000_0000 <= (a.y - c.y) as int * (px - c.x) <= 0x4_0000_0000,
        -0x4_0000_0000 <= (b.x - a.x) as int * (py - a.y) <= 0x4_0000_0000,
        -0x4_0000_0000 <= (b.y - a.y) as int * (px - a.x) <= 0x4_0000_0000,
{
    assert((-0x4_0000_0000 <= (c.x - b.x) as int * (py - b.y) <= 0x4_0000_0000) && (
    -0x4_0000_0000 <= (c.y - b.y) as int * (px - b.x) <= 0x4_0000_0000) && (-0x4_0000_0000 <= (
    a.x - c.x) as int * (py - c.y) <= 0x4_0000_0000) && (-0x4_0000_0000 <= (a.y - c.y) as int * (
    px - c.x) <= 0x4_0000_0000) && (-0x4_0000_0000 <= (b.x - a.x) as int * (py - a.y)
        <= 0x4_0000_0000) && (-0x4_0000_0000 <= (b.y - a.y) as int * (px - a.x)
        <= 0x4_0000_0000)) by (nonlinear_arith)
        requires
            -2 * TRI_COORD_LIMIT <= c.x - b.x <= 2 * TRI_COORD_LIMIT,
            -2 * TRI_COORD_LIMIT <= c.y - b.y <= 2 * TRI_COORD_LIMIT,
            -2 * TRI_COORD_LIMIT <= a.x - c.x <= 2 * TRI_COORD_LIMIT,
            -2 * TRI_COORD_LIMIT <= a.y - c.y <= 2 * TRI_COORD_LIMIT,
            -2 * TRI_COORD_LIMIT <= b.x - a.x <= 2 * TRI_COORD_LIMIT,
            -2 * TRI_COORD_LIMIT <= b.y - a.y <= 2 * TRI_COORD_LIMIT,
            -2 * TRI_COORD_LIMIT <= py - a.y <= 2 * TRI_COORD_LIMIT,
            -2 * TRI_COORD_LIMIT <= py - b.y <= 2 * TRI_COORD_LIMIT,
            -2 * TRI_COORD_LIMIT <= py - c.y <= 2 * TRI_COORD_LIMIT,
            -2 * TRI_COORD_LIMIT <= px - a.x <= 2 * TRI_COORD_LIMIT,
            -2 * TRI_COORD_LIMIT <= px - b.x <= 2 * TRI_COORD_LIMIT,
            -2 * TRI_COORD_LIMIT <= px - c.x <= 2 * TRI_COORD_LIMIT,
            TRI_COORD_LIMIT == 65536,
    ;
}

/// The weighted attribute sum of an edge-function evaluation stays well
/// inside the range floor division accepts.
proof fn lemma_weighted_sum_bounded(wa: int, wb: int, wc: int, v0: int, v1: int, v2: int)
    requires
        -0x8_0000_0000 <= wa <= 0x8_0000_0000,
        -0x8_0000_0000 <= wb <= 0x8_0000_0000,
        -0x8_0000_0000 <= wc <= 0x8_0000_0000,
        -0x10_0000 <= v0 <= 0x10_0000,
        -0x10_0000 <= v1 <= 0x10_0000,
        -0x10_0000 <= v2 <= 0x10_0000,
    ensures
        -0x80_0000_0000_0000 <= wa * v0 <= 0x80_0000_0000_0000,
        -0x80_0000_0000_0000 <= wb * v1 <= 0x80_0000_0000_0000,
        -0x80_0000_0000_0000 <= wc * v2 <= 0x80_0000_0000_0000,
{
    assert((-0x80_0000_0000_0000 <= wa * v0 <= 0x80_0000_0000_0000) && (-0x80_0000_0000_0000
        <= wb * v1 <= 0x80_0000_0000_0000) && (-0x80_0000_0000_0000 <= wc * v2
        <= 0x80_0000_0000_0000)) by (nonlinear_arith)
        requires
            -0x8_0000_0000 <= wa <= 0x8_0000_0000,
            -0x8_0000_0000 <= wb <= 0x8_0000_0000,
            -0x8_0000_0000 <= wc <= 0x8_0000_0000,
            -0x10_0000 <= v0 <= 0x10_0000,
            -0x10_0000 <= v1 <= 0x10_0000,
            -0x10_0000 <= v2 <= 0x10_0000,
    ;
}

/// The required state of one pixel while a triangle fill is in progress:
/// pixels before `(px, py)` in scan order within the clamped bounding box
/// carry the triangle's effect (and their winning samples were in range);
/// all other pixels are untouched.
pub open spec fn tri_pixel_state(
    t0: Vec3,
    t1: Vec3,
    t2: Vec3,
    uv0: Vec2,
    uv1: Vec2,
    uv2: Vec2,
    tex: TGAImage,
    intensity: int,
    bpps: int,
    oldz: Seq<Vec<i64>>,
    oldimg: TGAImage,
    z: Seq<Vec<i64>>,
    img: TGAImage,
    minx: int,
    maxx: int,
    miny: int,
    py: int,
    px: int,
    qx: int,
    qy: int,
) -> bool {
    if minx <= qx <= maxx && (miny <= qy < py || (qy == py && minx <= qx < px)) {
        z[qx]@[qy] == zbuf_after(t0, t1, t2, oldz[qx]@[qy] as int, qx, qy) && img.pixel_at(
            qx,
            qy,
        ) == pixel_after(
            t0,
            t1,
            t2,
            tri_shade_at(t0, t1, t2, uv0, uv1, uv2, tex, intensity, bpps, qx, qy),
            oldz[qx]@[qy] as int,
            oldimg.pixel_at(qx, qy),
            qx,
            qy,
        ) && (tri_covered(t0, t1, t2, qx, qy) && tri_depth(t0, t1, t2, qx, qy) > oldz[qx]@[qy]
            ==> sample_ok(
            tex,
            tri_u(t0, t1, t2, uv0, uv1, uv2, qx, qy),
            tri_v(t0, t1, t2, uv0, uv1, uv2, qx, qy),
        ))
    } else {
        z[qx]@[qy] == oldz[qx]@[qy] && img.pixel_at(qx, qy) == oldimg.pixel_at(qx, qy)
    }
}

/// The fill state of a whole image while a triangle fill is in progress.
pub open spec fn tri_loop_inv(
    t0: Vec3,
    t1: Vec3,
    t2: Vec3,
    uv0: Vec2,
    uv1: Vec2,
    uv2: Vec2,
    tex: TGAImage,
    intensity: int,
    bpps: int,
    oldz: Seq<Vec<i64>>,
    oldimg: TGAImage,
    z: Seq<Vec<i64>>,
    img: TGAImage,
    minx: int,
    maxx: int,
    miny: int,
    py: int,
    px: int,
) -> bool {
    forall|qx: int, qy: int|
        oldimg.in_bounds(qx, qy) ==> #[trigger] tri_pixel_state(
            t0,
            t1,
            t2,
            uv0,
            uv1,
            uv2,
            tex,
            intensity,
            bpps,
            oldz,
            oldimg,
            z,
            img,
            minx,
            maxx,
            miny,
            py,
            px,
            qx,
            qy,
        )
}

/// Reads the fill-state predicate off at one pixel.
proof fn lemma_tri_loop_inv_unfold(
    t0: Vec3,
    t1: Vec3,
    t2: Vec3,
    uv0: Vec2,
    uv1: Vec2,
    uv2: Vec2,
    tex: TGAImage,
    intensity: int,
    bpps: int,
    oldz: Seq<Vec<i64>>,
    oldimg: TGAImage,
    z: Seq<Vec<i64>>,
    img: TGAImage,
    minx: int,
    maxx: int,
    miny: int,
    py: int,
    px: int,
    qx: int,
    qy: int,
)
    requires
        tri_loop_inv(
            t0,
            t1,
            t2,
            uv0,
            uv1,
            uv2,
            tex,
            intensity,
            bpps,
            oldz,
            oldimg,
            z,
            img,
            minx,
            maxx,
            miny,
            py,
            px,
        ),
        oldimg.in_bounds(qx, qy),
    ensures
        tri_pixel_state(
            t0,
            t1,
            t2,
            uv0,
            uv1,
            uv2,
            tex,
            intensity,
            bpps,
            oldz,
            oldimg,
            z,
            img,
            minx,
            maxx,
            miny,
            py,
            px,
            qx,
            qy,
        ),
{
}

/// The fill-state predicate at a pixel not yet processed: that pixel is
/// still untouched.
proof fn lemma_tri_loop_inv_unprocessed(
    t0: Vec3,
    t1: Vec3,
    t2: Vec3,
    uv0: Vec2,
    uv1: Vec2,
    uv2: Vec2,
    tex: TGAImage,
    intensity: int,
    bpps: int,
    oldz: Seq<Vec<i64>>,
    oldimg: TGAImage,
    z: Seq<Vec<i64>>,
    img: TGAImage,
    minx: int,
    maxx: int,
    miny: int,
    py: int,
    px: int,
    qx: int,
    qy: int,
)
    requires
        tri_loop_inv(
            t0,
            t1,
            t2,
            uv0,
            uv1,
            uv2,
            tex,
            intensity,
            bpps,
            oldz,
            oldimg,
            z,
            img,
            minx,
            maxx,
            miny,
            py,
            px,
        ),
        oldimg.in_bounds(qx, qy),
        qx == px && qy == py,
    ensures
        z[qx]@[qy] == oldz[qx]@[qy],
        img.pixel_at(qx, qy) == oldimg.pixel_at(qx, qy),
{
    lemma_tri_loop_inv_unfold(
        t0,
        t1,
        t2,
        uv0,
        uv1,
        uv2,
        tex,
        intensity,
        bpps,
        oldz,
        oldimg,
        z,
        img,
        minx,
        maxx,
        miny,
        py,
        px,
        qx,
        qy,
    );
}

/// What one triangle draw guarantees of one z-buffer cell and pixel, on
/// every path: the cell and pixel either keep their old values, or take
/// the triangle's winning depth and its color there; the cell never
/// decreases.
pub open spec fn tri_partial_effect(
    t0: Vec3,
    t1: Vec3,
    t2: Vec3,
    uv0: Vec2,
    uv1: Vec2,
    uv2: Vec2,
    tex: TGAImage,
    intensity: int,
    bpps: int,
    oldz: Seq<Vec<i64>>,
    oldimg: TGAImage,
    z: Seq<Vec<i64>>,
    img: TGAImage,
    qx: int,
    qy: int,
) -> bool {
    &&& ((z[qx]@[qy] == oldz[qx]@[qy] && img.pixel_at(qx, qy) == oldimg.pixel_at(qx, qy)) || (
    tri_covered(t0, t1, t2, qx, qy) && tri_depth(t0, t1, t2, qx, qy) > oldz[qx]@[qy]
        && z[qx]@[qy] == tri_depth(t0, t1, t2, qx, qy) && img.pixel_at(qx, qy) == tri_shade_at(
        t0,
        t1,
        t2,
        uv0,
        uv1,
        uv2,
        tex,
        intensity,
        bpps,
        qx,
        qy,
    )))
    &&& z[qx]@[qy] >= oldz[qx]@[qy]
}

/// The partial-fill guarantees that hold of any state the fill predicate
/// describes: every z-buffer cell either keeps its old value or takes the
/// triangle's winning depth and color, and no cell decreases.
#[verifier::spinoff_prover]
#[verifier::rlimit(100)]
proof fn lemma_tri_loop_inv_err(
    t0: Vec3,
    t1: Vec3,
    t2: Vec3,
    uv0: Vec2,
    uv1: Vec2,
    uv2: Vec2,
    tex: TGAImage,
    intensity: int,
    bpps: int,
    oldz: Seq<Vec<i64>>,
    oldimg: TGAImage,
    z: Seq<Vec<i64>>,
    img: TGAImage,
    minx: int,
    maxx: int,
    miny: int,
    py: int,
    px: int,
)
    requires
        tri_loop_inv(
            t0,
            t1,
            t2,
            uv0,
            uv1,
            uv2,
            tex,
            intensity,
            bpps,
            oldz,
            oldimg,
            z,
            img,
            minx,
            maxx,
            miny,
            py,
            px,
        ),
    ensures
        forall|qx: int, qy: int|
            oldimg.in_bounds(qx, qy) ==> #[trigger] tri_partial_effect(
                t0,
                t1,
                t2,
                uv0,
                uv1,
                uv2,
                tex,
                intensity,
                bpps,
                oldz,
                oldimg,
                z,
                img,
                qx,
                qy,
            ),
{
    assert forall|qx: int, qy: int|
        oldimg.in_bounds(qx, qy) implies #[trigger] tri_partial_effect(
        t0,
        t1,
        t2,
        uv0,
        uv1,
        uv2,
        tex,
        intensity,
        bpps,
        oldz,
        oldimg,
        z,
        img,
        qx,
        qy,
    ) by {
        lemma_tri_loop_inv_unfold(
            t0,
            t1,
            t2,
            uv0,
            uv1,
            uv2,
            tex,
            intensity,
            bpps,
            oldz,
            oldimg,
            z,
            img,
            minx,
            maxx,
            miny,
            py,
            px,
            qx,
            qy,
        );
        if minx <= qx <= maxx && (miny <= qy < py || (qy == py && minx <= qx < px)) {
            if tri_covered(t0, t1, t2, qx, qy) && tri_depth(t0, t1, t2, qx, qy)
                > oldz[qx]@[qy] {
                assert(z[qx]@[qy] == tri_depth(t0, t1, t2, qx, qy));
                assert(img.pixel_at(qx, qy) == tri_shade_at(
                    t0,
                    t1,
                    t2,
                    uv0,
                    uv1,
                    uv2,
                    tex,
                    intensity,
                    bpps,
                    qx,
                    qy,
                ));
            } else {
                assert(z[qx]@[qy] == oldz[qx]@[qy]);
                assert(img.pixel_at(qx, qy) == oldimg.pixel_at(qx, qy));
            }
        } else {
            assert(z[qx]@[qy] == oldz[qx]@[qy]);
            assert(img.pixel_at(qx, qy) == oldimg.pixel_at(qx, qy));
        }
    }
}

impl Renderer {
    /// Well-formedness: the image is well formed and matches the renderer's
    /// dimensions.
    pub open spec fn wf(self) -> bool {
        &&& self.image.wf()
        &&& self.image.width == self.width
        &&& self.image.height == self.height
    }

    /// Creates a renderer with a zero-filled three-byte-per-pixel image.
    pub fn new(width: i32, height: i32) -> (r: Renderer)
        requires
            0 <= width <= 0xFFFF,
            0 <= height <= 0xFFFF,
            width * height * 3 <= usize::MAX,
        ensures
            r.wf(),
            r.width == width,
            r.height == height,
            r.image.bytespp == 3,
            forall|i: int| 0 <= i < r.image.data@.len() ==> r.image.data@[i] == 0u8,
    {
        let image = TGAImage::new(width, height, Format::RGB);
        Renderer { width, height, image }
    }

    /// Fills the triangle `(t0, t1, t2)` with depth testing: every covered
    /// pixel whose interpolated depth beats the z-buffer cell takes that
    /// depth and the texture's sampled color scaled by `intensity`; all
    /// other pixels and cells stay. Coverage uses barycentric sign tests
    /// over the vertices' bounding box clamped to the canvas; a triangle
    /// with zero determinant (all vertices on one line, in particular all
    /// on one y) is skipped. Fails exactly when some winning pixel samples
    /// outside the texture; pixels scanned before the failure keep their
    /// updates.
    #[verifier::rlimit(100)]
    pub fn draw_triangle(
        &mut self,
        t0: Vec3,
        t1: Vec3,
        t2: Vec3,
        uv0: Vec2,
        uv1: Vec2,
        uv2: Vec2,
        texture_image: &TGAImage,
        intensity: i64,
        zbuffer: &mut Vec<Vec<i64>>,
    ) -> (r: Result<(), RenderError>)
        requires
            old(self).wf(),
            texture_image.wf(),
            -TRI_COORD_LIMIT <= t0.x <= TRI_COORD_LIMIT,
            -TRI_COORD_LIMIT <= t0.y <= TRI_COORD_LIMIT,
            -TRI_COORD_LIMIT <= t1.x <= TRI_COORD_LIMIT,
            -TRI_COORD_LIMIT <= t1.y <= TRI_COORD_LIMIT,
            -TRI_COORD_LIMIT <= t2.x <= TRI_COORD_LIMIT,
            -TRI_COORD_LIMIT <= t2.y <= TRI_COORD_LIMIT,
            -TRI_DEPTH_LIMIT <= t0.z <= TRI_DEPTH_LIMIT,
            -TRI_DEPTH_LIMIT <= t1.z <= TRI_DEPTH_LIMIT,
            -TRI_DEPTH_LIMIT <= t2.z <= TRI_DEPTH_LIMIT,
            -TRI_UV_LIMIT <= uv0.x <= TRI_UV_LIMIT,
            -TRI_UV_LIMIT <= uv0.y <= TRI_UV_LIMIT,
            -TRI_UV_LIMIT <= uv1.x <= TRI_UV_LIMIT,
            -TRI_UV_LIMIT <= uv1.y <= TRI_UV_LIMIT,
            -TRI_UV_LIMIT <= uv2.x <= TRI_UV_LIMIT,
            -TRI_UV_LIMIT <= uv2.y <= TRI_UV_LIMIT,
            0 <= intensity <= FIXED_ONE,
            old(zbuffer)@.len() == old(self).width,
            forall|i: int|
                0 <= i < old(zbuffer)@.len() ==> (#[trigger] old(zbuffer)@[i])@.len() == old(
                    self,
                ).height,
        ensures
            final(self).wf(),
            final(self).width == old(self).width,
            final(self).height == old(self).height,
            final(self).image.bytespp == old(self).image.bytespp,
            final(self).image.data@.len() == old(self).image.data@.len(),
            final(zbuffer)@.len() == old(zbuffer)@.len(),
            forall|i: int|
                0 <= i < old(zbuffer)@.len() ==> (#[trigger] final(zbuffer)@[i])@.len() == old(
                    self,
                ).height,
            r is Ok <==> (forall|px: int, py: int|
                #![trigger old(zbuffer)@[px]@[py]]
                old(self).image.in_bounds(px, py) && tri_covered(t0, t1, t2, px, py)
                    && tri_depth(t0, t1, t2, px, py) > old(zbuffer)@[px]@[py] ==> sample_ok(
                    *texture_image,
                    tri_u(t0, t1, t2, uv0, uv1, uv2, px, py),
                    tri_v(t0, t1, t2, uv0, uv1, uv2, px, py),
                )),
            r is Ok ==> forall|px: int, py: int|
                #![trigger final(zbuffer)@[px]@[py]]
                old(self).image.in_bounds(px, py) ==> {
                    &&& final(zbuffer)@[px]@[py] == zbuf_after(
                        t0,
                        t1,
                        t2,
                        old(zbuffer)@[px]@[py] as int,
                        px,
                        py,
                    )
                    &&& final(self).image.pixel_at(px, py) == pixel_after(
                        t0,
                        t1,
                        t2,
                        tri_shade_at(
                            t0,
                            t1,
                            t2,
                            uv0,
                            uv1,
                            uv2,
                            *texture_image,
                            intensity as int,
                            old(self).image.bytespp as int,
                            px,
                            py,
                        ),
                        old(zbuffer)@[px]@[py] as int,
                        old(self).image.pixel_at(px, py),
                        px,
                        py,
                    )
                },
            forall|px: int, py: int|
                old(self).image.in_bounds(px, py) ==> #[trigger] tri_partial_effect(
                    t0,
                    t1,
                    t2,
                    uv0,
                    uv1,
                    uv2,
                    *texture_image,
                    intensity as int,
                    old(self).image.bytespp as int,
                    old(zbuffer)@,
                    old(self).image,
                    final(zbuffer)@,
                    final(self).image,
                    px,
                    py,
                ),
            r matches Err(e) ==> {
                let epx = e->TextureNotFound_x as int;
                let epy = e->TextureNotFound_y as int;
                &&& old(self).image.in_bounds(epx, epy)
                &&& tri_covered(t0, t1, t2, epx, epy)
                &&& tri_depth(t0, t1, t2, epx, epy) > old(zbuffer)@[epx]@[epy]
                &&& e->TextureNotFound_u == tri_u(t0, t1, t2, uv0, uv1, uv2, epx, epy)
                &&& e->TextureNotFound_v == tri_v(t0, t1, t2, uv0, uv1, uv2, epx, epy)
                &&& !sample_ok(
                    *texture_image,
                    tri_u(t0, t1, t2, uv0, uv1, uv2, epx, epy),
                    tri_v(t0, t1, t2, uv0, uv1, uv2, epx, epy),
                )
            },
    {
        proof {
            assert(-0x4_0000_0000 <= (t1.x - t0.x) as int * ((t2.y - t0.y) as int)
                <= 0x4_0000_0000 && -0x4_0000_0000 <= (t1.y - t0.y) as int * ((t2.x
                - t0.x) as int) <= 0x4_0000_0000) by (nonlinear_arith)
                requires
                    -2 * TRI_COORD_LIMIT <= t1.x - t0.x <= 2 * TRI_COORD_LIMIT,
                    -2 * TRI_COORD_LIMIT <= t2.y - t0.y <= 2 * TRI_COORD_LIMIT,
                    -2 * TRI_COORD_LIMIT <= t1.y - t0.y <= 2 * TRI_COORD_LIMIT,
                    -2 * TRI_COORD_LIMIT <= t2.x - t0.x <= 2 * TRI_COORD_LIMIT,
                    TRI_COORD_LIMIT == 65536,
            ;
        }
        let d: i64 = (t1.x - t0.x) * (t2.y - t0.y) - (t1.y - t0.y) * (t2.x - t0.x);
        if d == 0 {
            return Ok(());
        }
        let (a, b, c) = if d > 0 {
            (t0, t1, t2)
        } else {
            (t0, t2, t1)
        };
        let (ua, ub, uc) = if d > 0 {
            (uv0, uv1, uv2)
        } else {
            (uv0, uv2, uv1)
        };
        let adet = if d > 0 {
            d
        } else {
            -d
        };
        proof {
            assert((a, b, c) == tri_ccw(t0, t1, t2));
            assert(adet == abs_i(tri_det(t0, t1, t2)));
        }
        let lo_x: i64 = if t0.x <= t1.x && t0.x <= t2.x {
            t0.x
        } else if t1.x <= t2.x {
            t1.x
        } else {
            t2.x
        };
        let hi_x: i64 = if t0.x >= t1.x && t0.x >= t2.x {
            t0.x
        } else if t1.x >= t2.x {
            t1.x
        } else {
            t2.x
        };
        let lo_y: i64 = if t0.y <= t1.y && t0.y <= t2.y {
            t0.y
        } else if t1.y <= t2.y {
            t1.y
        } else {
            t2.y
        };
        let hi_y: i64 = if t0.y >= t1.y && t0.y >= t2.y {
            t0.y
        } else if t1.y >= t2.y {
            t1.y
        } else {
            t2.y
        };
        let minx: i64 = if lo_x > 0 {
            lo_x
        } else {
            0
        };
        let maxx: i64 = if hi_x < self.width as i64 - 1 {
            hi_x
        } else {
            self.width as i64 - 1
        };
        let miny: i64 = if lo_y > 0 {
            lo_y
        } else {
            0
        };
        let maxy: i64 = if hi_y < self.height as i64 - 1 {
            hi_y
        } else {
            self.height as i64 - 1
        };
        proof {
            assert forall|px: int, py: int|
                old(self).image.in_bounds(px, py) && tri_covered(t0, t1, t2, px, py) implies minx
                <= px <= maxx && miny <= py <= maxy by {}
        }
        let ghost bpps = old(self).image.bytespp as int;
        if minx > maxx || miny > maxy {
            return Ok(());
        }
        proof {
            assert(tri_loop_inv(
                t0,
                t1,
                t2,
                uv0,
                uv1,
                uv2,
                *texture_image,
                intensity as int,
                bpps,
                old(zbuffer)@,
                old(self).image,
                zbuffer@,
                self.image,
                minx as int,
                maxx as int,
                miny as int,
                miny as int,
                minx as int,
            )) by {
                assert forall|qx: int, qy: int|
                    old(self).image.in_bounds(qx, qy) implies #[trigger] tri_pixel_state(
                    t0,
                    t1,
                    t2,
                    uv0,
                    uv1,
                    uv2,
                    *texture_image,
                    intensity as int,
                    bpps,
                    old(zbuffer)@,
                    old(self).image,
                    zbuffer@,
                    self.image,
                    minx as int,
                    maxx as int,
                    miny as int,
                    miny as int,
                    minx as int,
                    qx,
                    qy,
                ) by {}
            }
        }
        let mut py: i64 = miny;
        while py <= maxy
            invariant
                old(self).wf(),
                self.wf(),
                self.width == old(self).width,
                self.height == old(self).height,
                self.image.bytespp == old(self).image.bytespp,
                self.image.data@.len() == old(self).image.data@.len(),
                bpps == old(self).image.bytespp as int,
                texture_image.wf(),
                zbuffer@.len() == old(zbuffer)@.len() == old(self).width,
                forall|i: int|
                    0 <= i < zbuffer@.len() ==> (#[trigger] zbuffer@[i])@.len() == old(
                        self,
                    ).height,
                -TRI_COORD_LIMIT <= t0.x <= TRI_COORD_LIMIT,
                -TRI_COORD_LIMIT <= t0.y <= TRI_COORD_LIMIT,
                -TRI_COORD_LIMIT <= t1.x <= TRI_COORD_LIMIT,
                -TRI_COORD_LIMIT <= t1.y <= TRI_COORD_LIMIT,
                -TRI_COORD_LIMIT <= t2.x <= TRI_COORD_LIMIT,
                -TRI_COORD_LIMIT <= t2.y <= TRI_COORD_LIMIT,
                -TRI_DEPTH_LIMIT <= t0.z <= TRI_DEPTH_LIMIT,
                -TRI_DEPTH_LIMIT <= t1.z <= TRI_DEPTH_LIMIT,
                -TRI_DEPTH_LIMIT <= t2.z <= TRI_DEPTH_LIMIT,
                -TRI_UV_LIMIT <= uv0.x <= TRI_UV_LIMIT,
                -TRI_UV_LIMIT <= uv0.y <= TRI_UV_LIMIT,
                -TRI_UV_LIMIT <= uv1.x <= TRI_UV_LIMIT,
                -TRI_UV_LIMIT <= uv1.y <= TRI_UV_LIMIT,
                -TRI_UV_LIMIT <= uv2.x <= TRI_UV_LIMIT,
                -TRI_UV_LIMIT <= uv2.y <= TRI_UV_LIMIT,
                0 <= intensity <= FIXED_ONE,
                d == tri_det(t0, t1, t2),
                d != 0,
                (a, b, c) == tri_ccw(t0, t1, t2),
                ua == uv0,
                ub == (if d > 0 {
                    uv1
                } else {
                    uv2
                }),
                uc == (if d > 0 {
                    uv2
                } else {
                    uv1
                }),
                adet == abs_i(tri_det(t0, t1, t2)),
                0 <= minx <= maxx,
                maxx <= old(self).width - 1,
                0 <= miny <= maxy,
                maxy <= old(self).height - 1,
                min3(t0.x as int, t1.x as int, t2.x as int) <= minx,
                maxx <= max3(t0.x as int, t1.x as int, t2.x as int),
                min3(t0.y as int, t1.y as int, t2.y as int) <= miny,
                maxy <= max3(t0.y as int, t1.y as int, t2.y as int),
                miny <= py <= maxy + 1,
                forall|qx: int, qy: int|
                    old(self).image.in_bounds(qx, qy) && tri_covered(t0, t1, t2, qx, qy) ==> minx
                        <= qx <= maxx && miny <= qy <= maxy,
                tri_loop_inv(
                    t0,
                    t1,
                    t2,
                    uv0,
                    uv1,
                    uv2,
                    *texture_image,
                    intensity as int,
                    bpps,
                    old(zbuffer)@,
                    old(self).image,
                    zbuffer@,
                    self.image,
                    minx as int,
                    maxx as int,
                    miny as int,
                    py as int,
                    minx as int,
                ),
            decreases maxy - py + 1,
        {
            let mut px: i64 = minx;
            while px <= maxx
                invariant
                    old(self).wf(),
                    self.wf(),
                    self.width == old(self).width,
                    self.height == old(self).height,
                    self.image.bytespp == old(self).image.bytespp,
                    self.image.data@.len() == old(self).image.data@.len(),
                    bpps == old(self).image.bytespp as int,
                    texture_image.wf(),
                    zbuffer@.len() == old(zbuffer)@.len() == old(self).width,
                    forall|i: int|
                        0 <= i < zbuffer@.len() ==> (#[trigger] zbuffer@[i])@.len() == old(
                            self,
                        ).height,
                    -TRI_COORD_LIMIT <= t0.x <= TRI_COORD_LIMIT,
                    -TRI_COORD_LIMIT <= t0.y <= TRI_COORD_LIMIT,
                    -TRI_COORD_LIMIT <= t1.x <= TRI_COORD_LIMIT,
                    -TRI_COORD_LIMIT <= t1.y <= TRI_COORD_LIMIT,
                    -TRI_COORD_LIMIT <= t2.x <= TRI_COORD_LIMIT,
                    -TRI_COORD_LIMIT <= t2.y <= TRI_COORD_LIMIT,
                    -TRI_DEPTH_LIMIT <= t0.z <= TRI_DEPTH_LIMIT,
                    -TRI_DEPTH_LIMIT <= t1.z <= TRI_DEPTH_LIMIT,
                    -TRI_DEPTH_LIMIT <= t2.z <= TRI_DEPTH_LIMIT,
                    -TRI_UV_LIMIT <= uv0.x <= TRI_UV_LIMIT,
                    -TRI_UV_LIMIT <= uv0.y <= TRI_UV_LIMIT,
                    -TRI_UV_LIMIT <= uv1.x <= TRI_UV_LIMIT,
                    -TRI_UV_LIMIT <= uv1.y <= TRI_UV_LIMIT,
                    -TRI_UV_LIMIT <= uv2.x <= TRI_UV_LIMIT,
                    -TRI_UV_LIMIT <= uv2.y <= TRI_UV_LIMIT,
                    0 <= intensity <= FIXED_ONE,
                    d == tri_det(t0, t1, t2),
                    d != 0,
                    (a, b, c) == tri_ccw(t0, t1, t2),
                    ua == uv0,
                    ub == (if d > 0 {
                        uv1
                    } else {
                        uv2
                    }),
                    uc == (if d > 0 {
                        uv2
                    } else {
                        uv1
                    }),
                    adet == abs_i(tri_det(t0, t1, t2)),
                    0 <= minx <= maxx,
                    maxx <= old(self).width - 1,
                    0 <= miny <= maxy,
                    maxy <= old(self).height - 1,
                    min3(t0.x as int, t1.x as int, t2.x as int) <= minx,
                    maxx <= max3(t0.x as int, t1.x as int, t2.x as int),
                    min3(t0.y as int, t1.y as int, t2.y as int) <= miny,
                    maxy <= max3(t0.y as int, t1.y as int, t2.y as int),
                    miny <= py <= maxy,
                    minx <= px <= maxx + 1,
                    forall|qx: int, qy: int|
                        old(self).image.in_bounds(qx, qy) && tri_covered(t0, t1, t2, qx, qy)
                            ==> minx <= qx <= maxx && miny <= qy <= maxy,
                    tri_loop_inv(
                        t0,
                        t1,
                        t2,
                        uv0,
                        uv1,
                        uv2,
                        *texture_image,
                        intensity as int,
                        bpps,
                        old(zbuffer)@,
                        old(self).image,
                        zbuffer@,
                        self.image,
                        minx as int,
                        maxx as int,
                        miny as int,
                        py as int,
                        px as int,
                    ),
                decreases maxx - px + 1,
            {
                let ghost zb0 = zbuffer@;
                let ghost img0 = self.image;
                proof {
                    lemma_orient_products_bounded(a, b, c, px as int, py as int);
                    assert(zbuffer@[px as int]@[py as int] == old(zbuffer)@[px as int]@[
                    py as int] && self.image.pixel_at(px as int, py as int) == old(
                        self,
                    ).image.pixel_at(px as int, py as int)) by {
                        lemma_tri_loop_inv_unprocessed(
                            t0,
                            t1,
                            t2,
                            uv0,
                            uv1,
                            uv2,
                            *texture_image,
                            intensity as int,
                            bpps,
                            old(zbuffer)@,
                            old(self).image,
                            zbuffer@,
                            self.image,
                            minx as int,
                            maxx as int,
                            miny as int,
                            py as int,
                            px as int,
                            px as int,
                            py as int,
                        );
                    }
                }
                let wa: i64 = (c.x - b.x) * (py - b.y) - (c.y - b.y) * (px - b.x);
                let wb: i64 = (a.x - c.x) * (py - c.y) - (a.y - c.y) * (px - c.x);
                let wc: i64 = (b.x - a.x) * (py - a.y) - (b.y - a.y) * (px - a.x);
                let bias_a: i64 = if b.y < c.y || (b.y == c.y && b.x > c.x) {
                    0
                } else {
                    1
                };
                let bias_b: i64 = if c.y < a.y || (c.y == a.y && c.x > a.x) {
                    0
                } else {
                    1
                };
                let bias_c: i64 = if a.y < b.y || (a.y == b.y && a.x > b.x) {
                    0
                } else {
                    1
                };
                proof {
                    assert(wa == orient2d(
                        b.x as int,
                        b.y as int,
                        c.x as int,
                        c.y as int,
                        px as int,
                        py as int,
                    ));
                    assert(tri_covered(t0, t1, t2, px as int, py as int) <==> (wa >= bias_a && wb
                        >= bias_b && wc >= bias_c));
                }
                if wa >= bias_a && wb >= bias_b && wc >= bias_c {
                    proof {
                        lemma_weighted_sum_bounded(
                            wa as int,
                            wb as int,
                            wc as int,
                            a.z as int,
                            b.z as int,
                            c.z as int,
                        );
                        lemma_weighted_sum_bounded(
                            wa as int,
                            wb as int,
                            wc as int,
                            ua.x as int,
                            ub.x as int,
                            uc.x as int,
                        );
                        lemma_weighted_sum_bounded(
                            wa as int,
                            wb as int,
                            wc as int,
                            ua.y as int,
                            ub.y as int,
                            uc.y as int,
                        );
                    }
                    let zq = div_floor(wa * a.z + wb * b.z + wc * c.z, adet);
                    proof {
                        assert(zq == tri_depth(t0, t1, t2, px as int, py as int));
                    }
                    let pxu = px as usize;
                    let pyu = py as usize;
                    let zcur = zbuffer[pxu][pyu];
                    if zcur < zq {
                        let uq = div_floor(wa * ua.x + wb * ub.x + wc * uc.x, adet);
                        let vq = div_floor(wa * ua.y + wb * ub.y + wc * uc.y, adet);
                        proof {
                            assert(uq == tri_u(
                                t0,
                                t1,
                                t2,
                                uv0,
                                uv1,
                                uv2,
                                px as int,
                                py as int,
                            ));
                            assert(vq == tri_v(
                                t0,
                                t1,
                                t2,
                                uv0,
                                uv1,
                                uv2,
                                px as int,
                                py as int,
                            ));
                        }
                        let au: i64 = if uq >= 0 {
                            uq
                        } else {
                            -uq
                        };
                        let av: i64 = if vq >= 0 {
                            vq
                        } else {
                            -vq
                        };
                        proof {
                            assert(0 <= (au as int) * (texture_image.width as int)
                                <= 0x180_0000_0000_0000 * 0xFFFF && 0 <= (av as int) * (
                            texture_image.height as int) <= 0x180_0000_0000_0000 * 0xFFFF) by (
                            nonlinear_arith)
                                requires
                                    0 <= au <= 0x180_0000_0000_0000,
                                    0 <= av <= 0x180_0000_0000_0000,
                                    0 <= texture_image.width <= 0xFFFF,
                                    0 <= texture_image.height <= 0xFFFF,
                            ;
                        }
                        let sx128: i128 = (au as i128) * (texture_image.width as i128) / (
                        FIXED_ONE as i128);
                        let sy128: i128 = (av as i128) * (texture_image.height as i128) / (
                        FIXED_ONE as i128);
                        proof {
                            assert(sx128 == sample_x(*texture_image, uq as int) && sy128
                                == sample_y(*texture_image, vq as int) && 0 <= sx128 && 0
                                <= sy128) by {
                                assert(au as int * (texture_image.width as int) >= 0 && av as int
                                    * (texture_image.height as int) >= 0) by (nonlinear_arith)
                                    requires
                                        au >= 0,
                                        av >= 0,
                                        texture_image.width >= 0,
                                        texture_image.height >= 0,
                                ;
                                vstd::arithmetic::div_mod::lemma_div_pos_is_pos(
                                    au as int * (texture_image.width as int),
                                    FIXED_ONE as int,
                                );
                                vstd::arithmetic::div_mod::lemma_div_pos_is_pos(
                                    av as int * (texture_image.height as int),
                                    FIXED_ONE as int,
                                );
                            }
                        }
                        if sx128 >= texture_image.width as i128 || sy128
                            >= texture_image.height as i128 {
                            proof {
                                assert(!sample_ok(*texture_image, uq as int, vq as int));
                                lemma_tri_loop_inv_err(
                                    t0,
                                    t1,
                                    t2,
                                    uv0,
                                    uv1,
                                    uv2,
                                    *texture_image,
                                    intensity as int,
                                    bpps,
                                    old(zbuffer)@,
                                    old(self).image,
                                    zbuffer@,
                                    self.image,
                                    minx as int,
                                    maxx as int,
                                    miny as int,
                                    py as int,
                                    px as int,
                                );
                            }
                            return Err(
                                RenderError::TextureNotFound { x: px, y: py, u: uq, v: vq },
                            );
                        }
                        let sx = sx128 as i32;
                        let sy = sy128 as i32;
                        let sample = texture_image.get(sx, sy);
                        proof {
                            assert(sample_ok(*texture_image, uq as int, vq as int));
                        }
                        let scolor = match sample {
                            Some(col) => col,
                            None => {
                                // Unreachable: the sample was bounds-checked.
                                proof {
                                    assert(false);
                                }
                                TGAColor::new()
                            },
                        };
                        proof {
                            assert(0 <= (scolor.raw@[2] as int) * intensity <= 0xFF0000 && 0 <= (
                            scolor.raw@[1] as int) * intensity <= 0xFF0000 && 0 <= (
                            scolor.raw@[0] as int) * intensity <= 0xFF0000) by (nonlinear_arith)
                                requires
                                    0 <= intensity <= 65536,
                                    scolor.raw@[2] <= 255,
                                    scolor.raw@[1] <= 255,
                                    scolor.raw@[0] <= 255,
                            ;
                        }
                        let rr = ((scolor.raw[2] as i64) * intensity / FIXED_ONE) as u8;
                        let gg = ((scolor.raw[1] as i64) * intensity / FIXED_ONE) as u8;
                        let bb = ((scolor.raw[0] as i64) * intensity / FIXED_ONE) as u8;
                        let out_color = TGAColor::rgba(rr, gg, bb, scolor.raw[3]);
                        proof {
                            assert(out_color.raw@ =~= shade(
                                *texture_image,
                                uq as int,
                                vq as int,
                                intensity as int,
                            )) by {
                                let t = texel(*texture_image, uq as int, vq as int);
                                assert(t[0] == scolor.raw@[0] && t[1] == scolor.raw@[1] && t[2]
                                    == scolor.raw@[2] && t[3] == scolor.raw@[3]);
                                assert((scolor.raw@[2] as int) * intensity >= 0 && (
                                scolor.raw@[1] as int) * intensity >= 0 && (scolor.raw@[0] as int)
                                    * intensity >= 0) by (nonlinear_arith)
                                    requires
                                        intensity >= 0,
                                ;
                            }
                        }
                        zbuffer[pxu][pyu] = zq;
                        self.image.set(px as i32, py as i32, &out_color);
                        proof {
                            assert(self.image.pixel_at(px as int, py as int) == out_color.raw@
                                .take(bpps));
                            assert(out_color.raw@.take(bpps) == tri_shade_at(
                                t0,
                                t1,
                                t2,
                                uv0,
                                uv1,
                                uv2,
                                *texture_image,
                                intensity as int,
                                bpps,
                                px as int,
                                py as int,
                            ));
                        }
                    }
                }
                let ghost pxi = px as int;
                let ghost pyi = py as int;
                px += 1;
                proof {
                    assert(px as int == pxi + 1);
                    let oz = old(zbuffer)@[pxi]@[pyi] as int;
                    assert(zb0[pxi]@[pyi] == old(zbuffer)@[pxi]@[pyi]);
                    assert(img0.pixel_at(pxi, pyi) == old(self).image.pixel_at(pxi, pyi));
                    assert(zbuffer@[pxi]@[pyi] == zbuf_after(t0, t1, t2, oz, pxi, pyi));
                    assert(self.image.pixel_at(pxi, pyi) == pixel_after(
                        t0,
                        t1,
                        t2,
                        tri_shade_at(
                            t0,
                            t1,
                            t2,
                            uv0,
                            uv1,
                            uv2,
                            *texture_image,
                            intensity as int,
                            bpps,
                            pxi,
                            pyi,
                        ),
                        oz,
                        old(self).image.pixel_at(pxi, pyi),
                        pxi,
                        pyi,
                    ));
                    assert(tri_covered(t0, t1, t2, pxi, pyi) && tri_depth(t0, t1, t2, pxi, pyi)
                        > oz ==> sample_ok(
                        *texture_image,
                        tri_u(t0, t1, t2, uv0, uv1, uv2, pxi, pyi),
                        tri_v(t0, t1, t2, uv0, uv1, uv2, pxi, pyi),
                    ));
                    assert forall|qx: int, qy: int|
                        #![trigger zbuffer@[qx]@[qy]]
                        old(self).image.in_bounds(qx, qy) && !(qx == pxi && qy == pyi)
                        implies zbuffer@[qx]@[qy] == zb0[qx]@[qy] && self.image.pixel_at(qx, qy)
                        == img0.pixel_at(qx, qy) by {}
                    assert(tri_loop_inv(
                        t0,
                        t1,
                        t2,
                        uv0,
                        uv1,
                        uv2,
                        *texture_image,
                        intensity as int,
                        bpps,
                        old(zbuffer)@,
                        old(self).image,
                        zbuffer@,
                        self.image,
                        minx as int,
                        maxx as int,
                        miny as int,
                        py as int,
                        px as int,
                    )) by {
                        assert forall|qx: int, qy: int|
                            old(self).image.in_bounds(qx, qy) implies #[trigger] tri_pixel_state(
                            t0,
                            t1,
                            t2,
                            uv0,
                            uv1,
                            uv2,
                            *texture_image,
                            intensity as int,
                            bpps,
                            old(zbuffer)@,
                            old(self).image,
                            zbuffer@,
                            self.image,
                            minx as int,
                            maxx as int,
                            miny as int,
                            py as int,
                            px as int,
                            qx,
                            qy,
                        ) by {
                            if !(qx == pxi && qy == pyi) {
                                assert(zbuffer@[qx]@[qy] == zb0[qx]@[qy]);
                                assert(self.image.pixel_at(qx, qy) == img0.pixel_at(qx, qy));
                                lemma_tri_loop_inv_unfold(
                                    t0,
                                    t1,
                                    t2,
                                    uv0,
                                    uv1,
                                    uv2,
                                    *texture_image,
                                    intensity as int,
                                    bpps,
                                    old(zbuffer)@,
                                    old(self).image,
                                    zb0,
                                    img0,
                                    minx as int,
                                    maxx as int,
                                    miny as int,
                                    pyi,
                                    pxi,
                                    qx,
                                    qy,
                                );
                            }
                        }
                    }
                }
            }
            let ghost pyi = py as int;            let ghost pyi = py as int;
            py += 1;
            proof {
                assert(py as int == pyi + 1);
                assert(tri_loop_inv(
                    t0,
                    t1,
                    t2,
                    uv0,
                    uv1,
                    uv2,
                    *texture_image,
                    intensity as int,
                    bpps,
                    old(zbuffer)@,
                    old(self).image,
                    zbuffer@,
                    self.image,
                    minx as int,
                    maxx as int,
                    miny as int,
                    py as int,
                    minx as int,
                )) by {
                    assert forall|qx: int, qy: int|
                        old(self).image.in_bounds(qx, qy) implies #[trigger] tri_pixel_state(
                        t0,
                        t1,
                        t2,
                        uv0,
                        uv1,
                        uv2,
                        *texture_image,
                        intensity as int,
                        bpps,
                        old(zbuffer)@,
                        old(self).image,
                        zbuffer@,
                        self.image,
                        minx as int,
                        maxx as int,
                        miny as int,
                        py as int,
                        minx as int,
                        qx,
                        qy,
                    ) by {
                        lemma_tri_loop_inv_unfold(
                            t0,
                            t1,
                            t2,
                            uv0,
                            uv1,
                            uv2,
                            *texture_image,
                            intensity as int,
                            bpps,
                            old(zbuffer)@,
                            old(self).image,
                            zbuffer@,
                            self.image,
                            minx as int,
                            maxx as int,
                            miny as int,
                            pyi,
                            maxx as int + 1,
                            qx,
                            qy,
                        );
                    }
                }
            }
        }
        proof {
            lemma_tri_loop_inv_err(
                t0,
                t1,
                t2,
                uv0,
                uv1,
                uv2,
                *texture_image,
                intensity as int,
                bpps,
                old(zbuffer)@,
                old(self).image,
                zbuffer@,
                self.image,
                minx as int,
                maxx as int,
                miny as int,
                maxy as int + 1,
                minx as int,
            );
            assert forall|qx: int, qy: int|
                #![trigger old(zbuffer)@[qx]@[qy]]
                old(self).image.in_bounds(qx, qy) implies {
                &&& zbuffer@[qx]@[qy] == zbuf_after(
                    t0,
                    t1,
                    t2,
                    old(zbuffer)@[qx]@[qy] as int,
                    qx,
                    qy,
                )
                &&& self.image.pixel_at(qx, qy) == pixel_after(
                    t0,
                    t1,
                    t2,
                    tri_shade_at(
                        t0,
                        t1,
                        t2,
                        uv0,
                        uv1,
                        uv2,
                        *texture_image,
                        intensity as int,
                        bpps,
                        qx,
                        qy,
                    ),
                    old(zbuffer)@[qx]@[qy] as int,
                    old(self).image.pixel_at(qx, qy),
                    qx,
                    qy,
                )
                &&& (tri_covered(t0, t1, t2, qx, qy) && tri_depth(t0, t1, t2, qx, qy) > old(
                    zbuffer,
                )@[qx]@[qy] ==> sample_ok(
                    *texture_image,
                    tri_u(t0, t1, t2, uv0, uv1, uv2, qx, qy),
                    tri_v(t0, t1, t2, uv0, uv1, uv2, qx, qy),
                ))
            } by {
                lemma_tri_loop_inv_unfold(
                    t0,
                    t1,
                    t2,
                    uv0,
                    uv1,
                    uv2,
                    *texture_image,
                    intensity as int,
                    bpps,
                    old(zbuffer)@,
                    old(self).image,
                    zbuffer@,
                    self.image,
                    minx as int,
                    maxx as int,
                    miny as int,
                    maxy as int + 1,
                    minx as int,
                    qx,
                    qy,
                );
            }
        }
        Ok(())
    }

    /// Draws the line from `t0` to `t1` with the chosen strategy: exactly
    /// the strategy's pixels change, to the given color; out-of-canvas
    /// pixels of the line are skipped.
    pub fn draw_line(
        &mut self,
        t0: Vec2,
        t1: Vec2,
        color: &TGAColor,
        optimization_level: OptimizationLevel,
    )
        requires
            old(self).wf(),
            -LINE_LIMIT <= t0.x <= LINE_LIMIT,
            -LINE_LIMIT <= t0.y <= LINE_LIMIT,
            -LINE_LIMIT <= t1.x <= LINE_LIMIT,
            -LINE_LIMIT <= t1.y <= LINE_LIMIT,
        ensures
            final(self).wf(),
            final(self).width == old(self).width,
            final(self).height == old(self).height,
            final(self).image.bytespp == old(self).image.bytespp,
            final(self).image.data@.len() == old(self).image.data@.len(),
            forall|px: int, py: int|
                old(self).image.in_bounds(px, py) ==> final(self).image.pixel_at(px, py) == (
                if line_hits(
                    optimization_level,
                    t0.x as int,
                    t0.y as int,
                    t1.x as int,
                    t1.y as int,
                    px,
                    py,
                ) {
                    color.raw@.take(old(self).image.bytespp as int)
                } else {
                    old(self).image.pixel_at(px, py)
                }),
    {
        let mut x0 = t0.x;
        let mut y0 = t0.y;
        let mut x1 = t1.x;
        let mut y1 = t1.y;
        let mut steep = false;
        let adx = if x0 > x1 {
            x0 - x1
        } else {
            x1 - x0
        };
        let ady = if y0 > y1 {
            y0 - y1
        } else {
            y1 - y0
        };
        if adx < ady {
            let t = x0;
            x0 = y0;
            y0 = t;
            let t = x1;
            x1 = y1;
            y1 = t;
            steep = true;
        }
        if x0 > x1 {
            let t = x0;
            x0 = x1;
            x1 = t;
            let t = y0;
            y0 = y1;
            y1 = t;
        }
        let ghost f = line_frame(t0.x as int, t0.y as int, t1.x as int, t1.y as int);
        proof {
            assert(f.x0 == x0 && f.y0 == y0 && f.x1 == x1 && f.y1 == y1 && f.steep == steep);
        }
        let dx = x1 - x0;
        let ghost lvl = optimization_level;
        match optimization_level {
            OptimizationLevel::Level0 => {
                let mut n: i64 = 0;
                while n <= dx
                    invariant
                        old(self).wf(),
                        self.wf(),
                        self.width == old(self).width,
                        self.height == old(self).height,
                        self.image.bytespp == old(self).image.bytespp,
                        self.image.data@.len() == old(self).image.data@.len(),
                        lvl == OptimizationLevel::Level0,
                        f.x0 == x0 && f.y0 == y0 && f.x1 == x1 && f.y1 == y1 && f.steep == steep,
                        dx == x1 - x0,
                        0 <= dx <= 2 * LINE_LIMIT,
                        -LINE_LIMIT <= x0 <= LINE_LIMIT,
                        -LINE_LIMIT <= y0 <= LINE_LIMIT,
                        -LINE_LIMIT <= x1 <= LINE_LIMIT,
                        -LINE_LIMIT <= y1 <= LINE_LIMIT,
                        0 <= n <= dx + 1,
                        forall|px: int, py: int|
                            old(self).image.in_bounds(px, py) ==> self.image.pixel_at(px, py) == (
                            if line_hits_upto(lvl, f, n as int, px, py) {
                                color.raw@.take(old(self).image.bytespp as int)
                            } else {
                                old(self).image.pixel_at(px, py)
                            }),
                    decreases dx - n + 1,
                {
                    let y: i64 = if dx == 0 {
                        y0
                    } else {
                        proof {
                            let a = n as int * (y1 - y0);
                            let dy = y1 as int - y0 as int;
                            assert(-0x4000_0000_0000_0000 < a < 0x4000_0000_0000_0000 && (if dy
                                >= 0 {
                                0 <= a <= dx * dy
                            } else {
                                dx * dy <= a <= 0
                            })) by (nonlinear_arith)
                                requires
                                    0 < dx,
                                    0 <= n <= dx,
                                    a == n * dy,
                                    dy == y1 - y0,
                                    -2 * LINE_LIMIT <= dy <= 2 * LINE_LIMIT,
                                    dx <= 2 * LINE_LIMIT,
                                    LINE_LIMIT == 1048576,
                            ;
                            vstd::arithmetic::div_mod::lemma_div_multiples_vanish(
                                dy,
                                dx as int,
                            );
                            if dy >= 0 {
                                vstd::arithmetic::div_mod::lemma_div_is_ordered(
                                    0,
                                    a,
                                    dx as int,
                                );
                                vstd::arithmetic::div_mod::lemma_div_is_ordered(
                                    a,
                                    dx as int * dy,
                                    dx as int,
                                );
                            } else {
                                vstd::arithmetic::div_mod::lemma_div_is_ordered(
                                    a,
                                    0,
                                    dx as int,
                                );
                                vstd::arithmetic::div_mod::lemma_div_is_ordered(
                                    dx as int * dy,
                                    a,
                                    dx as int,
                                );
                            }
                            assert(0int / (dx as int) == 0);
                        }
                        y0 + div_floor(n * (y1 - y0), dx)
                    };
                    let px: i64 = if steep {
                        y
                    } else {
                        x0 + n
                    };
                    let py: i64 = if steep {
                        x0 + n
                    } else {
                        y
                    };
                    proof {
                        assert(line_pixel_is(lvl, f, n as nat, px as int, py as int));
                    }
                    self.image.set(px as i32, py as i32, color);
                    proof {
                        assert forall|qx: int, qy: int|
                            old(self).image.in_bounds(qx, qy) implies self.image.pixel_at(qx, qy)
                            == (if line_hits_upto(lvl, f, n + 1, qx, qy) {
                            color.raw@.take(old(self).image.bytespp as int)
                        } else {
                            old(self).image.pixel_at(qx, qy)
                        }) by {
                            if qx == px as int && qy == py as int {
                                assert(line_hits_upto(lvl, f, n + 1, qx, qy));
                            } else {
                                assert forall|m: nat|
                                    m < n + 1 && #[trigger] line_pixel_is(lvl, f, m, qx, qy)
                                        implies m < n by {
                                    if m == n {
                                        assert(qx == px as int && qy == py as int);
                                    }
                                }
                            }
                        }
                    }
                    n += 1;
                }
            },
            OptimizationLevel::Level1 => {
                self.line_error_loop(t0, t1, color, Ghost(f), Ghost(lvl), x0, y0, x1, y1, steep);
            },
            OptimizationLevel::Level2 => {
                self.line_error_loop(t0, t1, color, Ghost(f), Ghost(lvl), x0, y0, x1, y1, steep);
            },
        }
    }

    /// The shared loop of the two accumulated-error strategies, which
    /// coincide in exact integer arithmetic: the error term is kept scaled
    /// by `2 * dx`, gains `2 * |dy|` per step, and a step of the minor
    /// coordinate subtracts `2 * dx`.
    fn line_error_loop(
        &mut self,
        t0: Vec2,
        t1: Vec2,
        color: &TGAColor,
        frame: Ghost<LineFrame>,
        lvl: Ghost<OptimizationLevel>,
        x0: i64,
        y0: i64,
        x1: i64,
        y1: i64,
        steep: bool,
    )
        requires
            old(self).wf(),
            lvl@ == OptimizationLevel::Level1 || lvl@ == OptimizationLevel::Level2,
            frame@ == (LineFrame {
                x0: x0 as int,
                y0: y0 as int,
                x1: x1 as int,
                y1: y1 as int,
                steep,
            }),
            -LINE_LIMIT <= x0 <= LINE_LIMIT,
            -LINE_LIMIT <= y0 <= LINE_LIMIT,
            -LINE_LIMIT <= x1 <= LINE_LIMIT,
            -LINE_LIMIT <= y1 <= LINE_LIMIT,
            x0 <= x1,
            x1 - x0 >= abs_i(y1 - y0),
        ensures
            final(self).wf(),
            final(self).width == old(self).width,
            final(self).height == old(self).height,
            final(self).image.bytespp == old(self).image.bytespp,
            final(self).image.data@.len() == old(self).image.data@.len(),
            forall|px: int, py: int|
                old(self).image.in_bounds(px, py) ==> final(self).image.pixel_at(px, py) == (
                if line_hits_upto(lvl@, frame@, frame@.x1 - frame@.x0 + 1, px, py) {
                    color.raw@.take(old(self).image.bytespp as int)
                } else {
                    old(self).image.pixel_at(px, py)
                }),
    {
        let ghost f = frame@;
        let dx = x1 - x0;
        let ady = if y0 > y1 {
            y0 - y1
        } else {
            y1 - y0
        };
        let derror = ady * 2;
        let mut error: i64 = 0;
        let mut y = y0;
        let mut n: i64 = 0;
        while n <= dx
            invariant
                old(self).wf(),
                self.wf(),
                self.width == old(self).width,
                self.height == old(self).height,
                self.image.bytespp == old(self).image.bytespp,
                self.image.data@.len() == old(self).image.data@.len(),
                lvl@ == OptimizationLevel::Level1 || lvl@ == OptimizationLevel::Level2,
                f == frame@,
                f == (LineFrame {
                    x0: x0 as int,
                    y0: y0 as int,
                    x1: x1 as int,
                    y1: y1 as int,
                    steep,
                }),
                dx == x1 - x0,
                0 <= dx <= 2 * LINE_LIMIT,
                ady == abs_i(y1 as int - y0 as int),
                ady <= dx,
                derror == 2 * ady,
                -LINE_LIMIT <= x0 <= LINE_LIMIT,
                -LINE_LIMIT <= y0 <= LINE_LIMIT,
                -LINE_LIMIT <= x1 <= LINE_LIMIT,
                -LINE_LIMIT <= y1 <= LINE_LIMIT,
                0 <= n <= dx + 1,
                (y as int, error as int) == line_error_state(f, n as nat),
                abs_i(y as int - y0 as int) <= n,
                -2 * LINE_LIMIT <= error <= 2 * LINE_LIMIT,
                forall|px: int, py: int|
                    old(self).image.in_bounds(px, py) ==> self.image.pixel_at(px, py) == (
                    if line_hits_upto(lvl@, f, n as int, px, py) {
                        color.raw@.take(old(self).image.bytespp as int)
                    } else {
                        old(self).image.pixel_at(px, py)
                    }),
            decreases dx - n + 1,
        {
            let px: i64 = if steep {
                y
            } else {
                x0 + n
            };
            let py: i64 = if steep {
                x0 + n
            } else {
                y
            };
            proof {
                assert(line_pixel_is(lvl@, f, n as nat, px as int, py as int));
            }
            self.image.set(px as i32, py as i32, color);
            proof {
                assert forall|qx: int, qy: int|
                    old(self).image.in_bounds(qx, qy) implies self.image.pixel_at(qx, qy) == (
                if line_hits_upto(lvl@, f, n + 1, qx, qy) {
                    color.raw@.take(old(self).image.bytespp as int)
                } else {
                    old(self).image.pixel_at(qx, qy)
                }) by {
                    if qx == px as int && qy == py as int {
                        assert(line_hits_upto(lvl@, f, n + 1, qx, qy));
                    } else {
                        assert forall|m: nat|
                            m < n + 1 && #[trigger] line_pixel_is(lvl@, f, m, qx, qy) implies m
                            < n by {
                            if m == n {
                                assert(qx == px as int && qy == py as int);
                            }
                        }
                    }
                }
            }
            error += derror;
            if error > dx {
                y += if y1 > y0 {
                    1
                } else {
                    -1
                };
                error -= dx * 2;
            }
            n += 1;
        }
    }
}


/// The screen-space position of one face vertex: x and y map the
/// fixed-point cube `[-1, 1]` onto the canvas, the depth is scaled to
/// thousandths (all divisions round toward negative infinity).
pub open spec fn face_vertex(m: crate::model::Model, w: int, h: int, i: int, j: int) -> Vec3 {
    let v = m.verts@[m.faces@[i]@[j].vertex as int];
    Vec3 {
        x: (((v.x + FIXED_ONE) * w) / (2 * FIXED_ONE)) as i64,
        y: (((v.y + FIXED_ONE) * h) / (2 * FIXED_ONE)) as i64,
        z: ((v.z * 1000) / (FIXED_ONE as int)) as i64,
    }
}

/// The texture coordinates of one face vertex.
pub open spec fn face_uv(m: crate::model::Model, i: int, j: int) -> Vec2 {
    m.uvs@[m.faces@[i]@[j].uv as int]
}

/// The face's flat light intensity against the fixed light direction
/// (0, 0, -1): the normalized face normal's negated z component, in fixed
/// point; zero for faces turned away or degenerate.
pub open spec fn face_intensity(m: crate::model::Model, i: int) -> int {
    let v0 = m.verts@[m.faces@[i]@[0].vertex as int];
    let v1 = m.verts@[m.faces@[i]@[1].vertex as int];
    let v2 = m.verts@[m.faces@[i]@[2].vertex as int];
    let e1x = v2.x - v0.x;
    let e1y = v2.y - v0.y;
    let e1z = v2.z - v0.z;
    let e2x = v1.x - v0.x;
    let e2y = v1.y - v0.y;
    let e2z = v1.z - v0.z;
    let nz = e1x * e2y - e1y * e2x;
    let nn = (e1y * e2z - e1z * e2y) * (e1y * e2z - e1z * e2y) + (e1z * e2x - e1x * e2z) * (e1z
        * e2x - e1x * e2z) + nz * nz;
    if nz >= 0 || nn == 0 {
        0
    } else {
        ((-nz) * (FIXED_ONE as int)) / (crate::geometry::sqrt_floor(nn as nat) as int)
    }
}

/// Whether the renderer draws face `i`: only faces lit by the fixed light.
pub open spec fn face_drawn(m: crate::model::Model, i: int) -> bool {
    face_intensity(m, i) > 0
}

/// The z-buffer cell at `(qx, qy)` after the first `k` faces: the fold of
/// each drawn face's depth-tested write over the initial minimum.
pub open spec fn zbuf_at(
    m: crate::model::Model,
    tex: TGAImage,
    w: int,
    h: int,
    k: nat,
    qx: int,
    qy: int,
) -> int
    decreases k,
{
    if k == 0 {
        i64::MIN as int
    } else {
        let z = zbuf_at(m, tex, w, h, (k - 1) as nat, qx, qy);
        if face_drawn(m, k - 1) {
            zbuf_after(
                face_vertex(m, w, h, k - 1, 0),
                face_vertex(m, w, h, k - 1, 1),
                face_vertex(m, w, h, k - 1, 2),
                z,
                qx,
                qy,
            )
        } else {
            z
        }
    }
}

/// The pixel at `(qx, qy)` after the first `k` faces, starting from the
/// image `init`.
pub open spec fn pix_at(
    m: crate::model::Model,
    tex: TGAImage,
    w: int,
    h: int,
    bpps: int,
    init: TGAImage,
    k: nat,
    qx: int,
    qy: int,
) -> Seq<u8>
    decreases k,
{
    if k == 0 {
        init.pixel_at(qx, qy)
    } else {
        let p = pix_at(m, tex, w, h, bpps, init, (k - 1) as nat, qx, qy);
        if face_drawn(m, k - 1) {
            pixel_after(
                face_vertex(m, w, h, k - 1, 0),
                face_vertex(m, w, h, k - 1, 1),
                face_vertex(m, w, h, k - 1, 2),
                tri_shade_at(
                    face_vertex(m, w, h, k - 1, 0),
                    face_vertex(m, w, h, k - 1, 1),
                    face_vertex(m, w, h, k - 1, 2),
                    face_uv(m, k - 1, 0),
                    face_uv(m, k - 1, 1),
                    face_uv(m, k - 1, 2),
                    tex,
                    face_intensity(m, k - 1),
                    bpps,
                    qx,
                    qy,
                ),
                zbuf_at(m, tex, w, h, (k - 1) as nat, qx, qy),
                p,
                qx,
                qy,
            )
        } else {
            p
        }
    }
}

/// Whether drawing face `i` (after the faces before it) meets a winning
/// pixel whose texture sample falls out of range: the one failure a render
/// can hit.
pub open spec fn face_fails(
    m: crate::model::Model,
    tex: TGAImage,
    w: int,
    h: int,
    i: int,
) -> bool {
    face_drawn(m, i) && exists|qx: int, qy: int|
        #![trigger zbuf_at(m, tex, w, h, i as nat, qx, qy)]
        0 <= qx < w && 0 <= qy < h && tri_covered(
            face_vertex(m, w, h, i, 0),
            face_vertex(m, w, h, i, 1),
            face_vertex(m, w, h, i, 2),
            qx,
            qy,
        ) && tri_depth(
            face_vertex(m, w, h, i, 0),
            face_vertex(m, w, h, i, 1),
            face_vertex(m, w, h, i, 2),
            qx,
            qy,
        ) > zbuf_at(m, tex, w, h, i as nat, qx, qy) && !sample_ok(
            tex,
            tri_u(
                face_vertex(m, w, h, i, 0),
                face_vertex(m, w, h, i, 1),
                face_vertex(m, w, h, i, 2),
                face_uv(m, i, 0),
                face_uv(m, i, 1),
                face_uv(m, i, 2),
                qx,
                qy,
            ),
            tri_v(
                face_vertex(m, w, h, i, 0),
                face_vertex(m, w, h, i, 1),
                face_vertex(m, w, h, i, 2),
                face_uv(m, i, 0),
                face_uv(m, i, 1),
                face_uv(m, i, 2),
                qx,
                qy,
            ),
        )
}

/// Exhibits one bad pixel as a face-fill failure.
proof fn lemma_face_fails_intro(
    m: crate::model::Model,
    tex: TGAImage,
    w: int,
    h: int,
    i: int,
    qx: int,
    qy: int,
)
    requires
        face_drawn(m, i),
        0 <= qx < w,
        0 <= qy < h,
        tri_covered(
            face_vertex(m, w, h, i, 0),
            face_vertex(m, w, h, i, 1),
            face_vertex(m, w, h, i, 2),
            qx,
            qy,
        ),
        tri_depth(
            face_vertex(m, w, h, i, 0),
            face_vertex(m, w, h, i, 1),
            face_vertex(m, w, h, i, 2),
            qx,
            qy,
        ) > zbuf_at(m, tex, w, h, i as nat, qx, qy),
        !sample_ok(
            tex,
            tri_u(
                face_vertex(m, w, h, i, 0),
                face_vertex(m, w, h, i, 1),
                face_vertex(m, w, h, i, 2),
                face_uv(m, i, 0),
                face_uv(m, i, 1),
                face_uv(m, i, 2),
                qx,
                qy,
            ),
            tri_v(
                face_vertex(m, w, h, i, 0),
                face_vertex(m, w, h, i, 1),
                face_vertex(m, w, h, i, 2),
                face_uv(m, i, 0),
                face_uv(m, i, 1),
                face_uv(m, i, 2),
                qx,
                qy,
            ),
        ),
    ensures
        face_fails(m, tex, w, h, i),
{
    // Names the cell's depth so the witness is in view for the existential.
    let d = zbuf_at(m, tex, w, h, i as nat, qx, qy);
}

/// The required state of one pixel while a render is in progress: after the
/// first `k` faces, the z-buffer cell and the pixel hold the fold of those
/// faces' depth-tested writes.
pub open spec fn render_pixel_state(
    m: crate::model::Model,
    tex: TGAImage,
    w: int,
    h: int,
    bpps: int,
    init: TGAImage,
    z: Seq<Vec<i64>>,
    img: TGAImage,
    k: nat,
    qx: int,
    qy: int,
) -> bool {
    z[qx]@[qy] == zbuf_at(m, tex, w, h, k, qx, qy) && img.pixel_at(qx, qy) == pix_at(
        m,
        tex,
        w,
        h,
        bpps,
        init,
        k,
        qx,
        qy,
    )
}

/// The render state of the whole canvas after the first `k` faces.
pub open spec fn render_inv(
    m: crate::model::Model,
    tex: TGAImage,
    w: int,
    h: int,
    bpps: int,
    init: TGAImage,
    z: Seq<Vec<i64>>,
    img: TGAImage,
    k: nat,
) -> bool {
    forall|qx: int, qy: int|
        init.in_bounds(qx, qy) ==> #[trigger] render_pixel_state(
            m,
            tex,
            w,
            h,
            bpps,
            init,
            z,
            img,
            k,
            qx,
            qy,
        )
}

/// Reads the render-state predicate off at one pixel.
proof fn lemma_render_inv_unfold(
    m: crate::model::Model,
    tex: TGAImage,
    w: int,
    h: int,
    bpps: int,
    init: TGAImage,
    z: Seq<Vec<i64>>,
    img: TGAImage,
    k: nat,
    qx: int,
    qy: int,
)
    requires
        render_inv(m, tex, w, h, bpps, init, z, img, k),
        init.in_bounds(qx, qy),
    ensures
        render_pixel_state(m, tex, w, h, bpps, init, z, img, k, qx, qy),
{
}

/// A face normal's negated z component never outweighs the normal's length:
/// the fixed-point intensity stays within one.
proof fn lemma_intensity_bounded(nz: int, nn: nat, r: nat)
    requires
        nz < 0,
        nn >= nz * nz,
        r * r <= nn < (r + 1) * (r + 1),
    ensures
        1 <= r,
        0 <= (-nz) * 65536 / (r as int) <= 65536,
{
    assert(1 <= r && -nz <= r) by (nonlinear_arith)
        requires
            nz < 0,
            nn >= nz * nz,
            r * r <= nn < (r + 1) * (r + 1),
    ;
    assert((-nz) * 65536 <= (r as int) * 65536) by (nonlinear_arith)
        requires
            -nz <= r,
    ;
    vstd::arithmetic::div_mod::lemma_div_is_ordered(
        (-nz) * 65536,
        (r as int) * 65536,
        r as int,
    );
    vstd::arithmetic::div_mod::lemma_div_multiples_vanish(65536, r as int);
    vstd::arithmetic::div_mod::lemma_div_pos_is_pos((-nz) * 65536, r as int);
    assert((r as int) * 65536 == (r as int) * 65536int) by (nonlinear_arith);
}

impl Renderer {
    /// Projects a fixed-point model-space vertex to screen space: x and y
    /// map `[-1, 1]` onto the canvas, the depth is scaled to thousandths.
    fn project_vertex(v: Vec3, w: i32, h: i32) -> (s: Vec3)
        requires
            -FIXED_ONE <= v.x <= FIXED_ONE,
            -FIXED_ONE <= v.y <= FIXED_ONE,
            -FIXED_ONE <= v.z <= FIXED_ONE,
            0 <= w <= 0xFFFF,
            0 <= h <= 0xFFFF,
        ensures
            s.x == ((v.x + FIXED_ONE) * w) / (2 * FIXED_ONE),
            s.y == ((v.y + FIXED_ONE) * h) / (2 * FIXED_ONE),
            s.z == (v.z * 1000) / (FIXED_ONE as int),
            0 <= s.x <= w,
            0 <= s.y <= h,
            -1000 <= s.z <= 1000,
    {
        proof {
            assert(0 <= (v.x + FIXED_ONE) as int * w <= (2 * FIXED_ONE) * w && 0 <= (v.y
                + FIXED_ONE) as int * h <= (2 * FIXED_ONE) * h && -1000 * FIXED_ONE <= v.z as int
                * 1000 <= 1000 * FIXED_ONE) by (nonlinear_arith)
                requires
                    -FIXED_ONE <= v.x <= FIXED_ONE,
                    -FIXED_ONE <= v.y <= FIXED_ONE,
                    -FIXED_ONE <= v.z <= FIXED_ONE,
                    0 <= w <= 0xFFFF,
                    0 <= h <= 0xFFFF,
                    FIXED_ONE == 65536,
            ;
            vstd::arithmetic::div_mod::lemma_div_pos_is_pos(
                (v.x + FIXED_ONE) as int * w,
                2 * FIXED_ONE as int,
            );
            vstd::arithmetic::div_mod::lemma_div_pos_is_pos(
                (v.y + FIXED_ONE) as int * h,
                2 * FIXED_ONE as int,
            );
            vstd::arithmetic::div_mod::lemma_div_is_ordered(
                (v.x + FIXED_ONE) as int * w,
                (2 * FIXED_ONE) * (w as int),
                2 * FIXED_ONE as int,
            );
            vstd::arithmetic::div_mod::lemma_div_is_ordered(
                (v.y + FIXED_ONE) as int * h,
                (2 * FIXED_ONE) * (h as int),
                2 * FIXED_ONE as int,
            );
            vstd::arithmetic::div_mod::lemma_div_multiples_vanish(
                w as int,
                2 * FIXED_ONE as int,
            );
            vstd::arithmetic::div_mod::lemma_div_multiples_vanish(
                h as int,
                2 * FIXED_ONE as int,
            );
        }
        let sx = (v.x + FIXED_ONE) * (w as i64) / (2 * FIXED_ONE);
        let sy = (v.y + FIXED_ONE) * (h as i64) / (2 * FIXED_ONE);
        let sz = div_floor(v.z * 1000, FIXED_ONE);
        proof {
            vstd::arithmetic::div_mod::lemma_div_is_ordered(
                -1000 * FIXED_ONE as int,
                v.z as int * 1000,
                FIXED_ONE as int,
            );
            vstd::arithmetic::div_mod::lemma_div_is_ordered(
                v.z as int * 1000,
                1000 * FIXED_ONE as int,
                FIXED_ONE as int,
            );
            vstd::arithmetic::div_mod::lemma_div_multiples_vanish(1000, FIXED_ONE as int);
            vstd::arithmetic::div_mod::lemma_div_multiples_vanish(-1000, FIXED_ONE as int);
            assert(FIXED_ONE as int * 1000 == 1000 * FIXED_ONE as int && FIXED_ONE as int * -1000
                == -1000 * FIXED_ONE as int) by (nonlinear_arith);
        }
        Vec3 { x: sx, y: sy, z: sz }
    }

    /// Renders every lit face of the mesh into the image with a fresh
    /// z-buffer: faces are projected to screen space, culled against the
    /// fixed light direction, and filled with depth testing and texture
    /// sampling. Fails exactly when some face's fill meets a winning pixel
    /// whose sample falls outside the texture; the faces before it keep
    /// their pixels.
    #[verifier::rlimit(100)]
    pub fn render_model(&mut self, model: &crate::model::Model, texture_image: &TGAImage) -> (r:
        Result<(), RenderError>)
        requires
            old(self).wf(),
            texture_image.wf(),
            model.wf(),
        ensures
            final(self).wf(),
            final(self).width == old(self).width,
            final(self).height == old(self).height,
            final(self).image.bytespp == old(self).image.bytespp,
            final(self).image.data@.len() == old(self).image.data@.len(),
            r is Ok <==> (forall|i: int|
                0 <= i < model.faces@.len() ==> !face_fails(
                    *model,
                    *texture_image,
                    old(self).width as int,
                    old(self).height as int,
                    i,
                )),
            r is Ok ==> forall|qx: int, qy: int|
                old(self).image.in_bounds(qx, qy) ==> final(self).image.pixel_at(qx, qy)
                    == pix_at(
                    *model,
                    *texture_image,
                    old(self).width as int,
                    old(self).height as int,
                    old(self).image.bytespp as int,
                    old(self).image,
                    model.faces@.len(),
                    qx,
                    qy,
                ),
    {
        let w = self.width;
        let h = self.height;
        let ghost bpps = old(self).image.bytespp as int;
        let mut zbuffer: Vec<Vec<i64>> = Vec::new();
        let mut zi: usize = 0;
        while zi < w as usize
            invariant
                0 <= w <= 0xFFFF,
                0 <= h <= 0xFFFF,
                zi <= w as usize,
                zbuffer@.len() == zi,
                forall|ii: int|
                    0 <= ii < zi ==> (#[trigger] zbuffer@[ii])@.len() == h && forall|jj: int|
                        0 <= jj < h ==> zbuffer@[ii]@[jj] == i64::MIN,
            decreases w - zi,
        {
            let mut col: Vec<i64> = Vec::new();
            let mut zj: usize = 0;
            while zj < h as usize
                invariant
                    0 <= h <= 0xFFFF,
                    zj <= h as usize,
                    col@.len() == zj,
                    forall|jj: int| 0 <= jj < zj ==> col@[jj] == i64::MIN,
                decreases h - zj,
            {
                col.push(i64::MIN);
                zj += 1;
            }
            zbuffer.push(col);
            zi += 1;
        }
        proof {
            assert(render_inv(
                *model,
                *texture_image,
                w as int,
                h as int,
                bpps,
                old(self).image,
                zbuffer@,
                self.image,
                0,
            )) by {
                assert forall|qx: int, qy: int|
                    old(self).image.in_bounds(qx, qy) implies #[trigger] render_pixel_state(
                    *model,
                    *texture_image,
                    w as int,
                    h as int,
                    bpps,
                    old(self).image,
                    zbuffer@,
                    self.image,
                    0,
                    qx,
                    qy,
                ) by {
                    assert(zbuffer@[qx]@[qy] == i64::MIN);
                }
            }
        }
        let nf = model.nfaces();
        let mut i: usize = 0;
        while i < nf
            invariant
                old(self).wf(),
                self.wf(),
                self.width == old(self).width == w,
                self.height == old(self).height == h,
                self.image.bytespp == old(self).image.bytespp,
                self.image.data@.len() == old(self).image.data@.len(),
                bpps == old(self).image.bytespp as int,
                texture_image.wf(),
                model.wf(),
                nf == model.faces@.len(),
                i <= nf,
                zbuffer@.len() == w,
                forall|ii: int|
                    0 <= ii < zbuffer@.len() ==> (#[trigger] zbuffer@[ii])@.len() == h,
                render_inv(
                    *model,
                    *texture_image,
                    w as int,
                    h as int,
                    bpps,
                    old(self).image,
                    zbuffer@,
                    self.image,
                    i as nat,
                ),
                forall|j: int|
                    0 <= j < i ==> !face_fails(
                        *model,
                        *texture_image,
                        w as int,
                        h as int,
                        j,
                    ),
            decreases nf - i,
        {
            let face = model.face(i);
            let fv0 = face[0];
            let fv1 = face[1];
            let fv2 = face[2];
            let v0 = model.vert(fv0.vertex);
            let v1 = model.vert(fv1.vertex);
            let v2 = model.vert(fv2.vertex);
            let sv0 = Renderer::project_vertex(v0, w, h);
            let sv1 = Renderer::project_vertex(v1, w, h);
            let sv2 = Renderer::project_vertex(v2, w, h);
            proof {
                assert(sv0 == face_vertex(*model, w as int, h as int, i as int, 0));
                assert(sv1 == face_vertex(*model, w as int, h as int, i as int, 1));
                assert(sv2 == face_vertex(*model, w as int, h as int, i as int, 2));
            }
            let e1 = v2.sub(v0);
            let e2 = v1.sub(v0);
            proof {
                assert((-0x4_0000_0000 <= e1.y as int * e2.z <= 0x4_0000_0000) && (-0x4_0000_0000
                    <= e1.z as int * e2.y <= 0x4_0000_0000) && (-0x4_0000_0000 <= e1.z as int
                    * e2.x <= 0x4_0000_0000) && (-0x4_0000_0000 <= e1.x as int * e2.z
                    <= 0x4_0000_0000) && (-0x4_0000_0000 <= e1.x as int * e2.y <= 0x4_0000_0000)
                    && (-0x4_0000_0000 <= e1.y as int * e2.x <= 0x4_0000_0000)) by (
                nonlinear_arith)
                    requires
                        -2 * FIXED_ONE <= e1.x <= 2 * FIXED_ONE,
                        -2 * FIXED_ONE <= e1.y <= 2 * FIXED_ONE,
                        -2 * FIXED_ONE <= e1.z <= 2 * FIXED_ONE,
                        -2 * FIXED_ONE <= e2.x <= 2 * FIXED_ONE,
                        -2 * FIXED_ONE <= e2.y <= 2 * FIXED_ONE,
                        -2 * FIXED_ONE <= e2.z <= 2 * FIXED_ONE,
                        FIXED_ONE == 65536,
            ;
            }
            let n = e1.cross(e2);
            proof {
                assert((n.x as int) * (n.x as int) <= 0x40_0000_0000_0000_0000 && (n.y as int) * (
                n.y as int) <= 0x40_0000_0000_0000_0000 && (n.z as int) * (n.z as int)
                    <= 0x40_0000_0000_0000_0000 && (n.x as int) * (n.x as int) >= 0 && (
                n.y as int) * (n.y as int) >= 0 && (n.z as int) * (n.z as int) >= 0) by (
                nonlinear_arith)
                    requires
                        -0x8_0000_0000 <= n.x <= 0x8_0000_0000,
                        -0x8_0000_0000 <= n.y <= 0x8_0000_0000,
                        -0x8_0000_0000 <= n.z <= 0x8_0000_0000,
                ;
            }
            let nn: i128 = (n.x as i128) * (n.x as i128) + (n.y as i128) * (n.y as i128) + (
            n.z as i128) * (n.z as i128);
            let intensity: i64 = if n.z >= 0 || nn == 0 {
                0
            } else {
                let norm = crate::geometry::isqrt(nn as u128);
                proof {
                    lemma_intensity_bounded(n.z as int, nn as nat, norm as nat);
                    assert(norm * norm <= 0xC0_0000_0000_0000_0000 ==> norm
                        <= 0x10_0000_0000) by (nonlinear_arith);
                    assert((-(n.z as int)) * (FIXED_ONE as int) <= 0x8_0000_0000 * 0x1_0000 && 0
                        <= (-(n.z as int)) * (FIXED_ONE as int)) by (nonlinear_arith)
                        requires
                            0 < -(n.z as int) <= 0x8_0000_0000,
                            FIXED_ONE == 65536,
                    ;
                }
                ((-n.z) * FIXED_ONE) / (norm as i64)
            };
            proof {
                assert(intensity == face_intensity(*model, i as int));
                assert(0 <= intensity <= FIXED_ONE);
            }
            if intensity > 0 {
                let uvv0 = model.uv(fv0.uv);
                let uvv1 = model.uv(fv1.uv);
                let uvv2 = model.uv(fv2.uv);
                proof {
                    assert(uvv0 == face_uv(*model, i as int, 0));
                    assert(uvv1 == face_uv(*model, i as int, 1));
                    assert(uvv2 == face_uv(*model, i as int, 2));
                }
                let ghost zpre = zbuffer@;
                let ghost ipre = self.image;
                let res = self.draw_triangle(
                    sv0,
                    sv1,
                    sv2,
                    uvv0,
                    uvv1,
                    uvv2,
                    texture_image,
                    intensity,
                    &mut zbuffer,
                );
                match res {
                    Ok(()) => {
                        proof {
                            assert(render_inv(
                                *model,
                                *texture_image,
                                w as int,
                                h as int,
                                bpps,
                                old(self).image,
                                zbuffer@,
                                self.image,
                                (i + 1) as nat,
                            )) by {
                            assert forall|qx: int, qy: int|
                                old(self).image.in_bounds(qx, qy) implies #[trigger] render_pixel_state(
                                *model,
                                *texture_image,
                                w as int,
                                h as int,
                                bpps,
                                old(self).image,
                                zbuffer@,
                                self.image,
                                (i + 1) as nat,
                                qx,
                                qy,
                            ) by {
                                lemma_render_inv_unfold(
                                    *model,
                                    *texture_image,
                                    w as int,
                                    h as int,
                                    bpps,
                                    old(self).image,
                                    zpre,
                                    ipre,
                                    i as nat,
                                    qx,
                                    qy,
                                );
                                assert(zbuffer@[qx]@[qy] == zbuf_after(
                                    sv0,
                                    sv1,
                                    sv2,
                                    zpre[qx]@[qy] as int,
                                    qx,
                                    qy,
                                ));
                            }
                            }
                            assert(!face_fails(
                                *model,
                                *texture_image,
                                w as int,
                                h as int,
                                i as int,
                            )) by {
                                if face_fails(
                                    *model,
                                    *texture_image,
                                    w as int,
                                    h as int,
                                    i as int,
                                ) {
                                    let (bqx, bqy) = choose|bqx: int, bqy: int|
                                        0 <= bqx < w as int && 0 <= bqy < h as int
                                            && tri_covered(sv0, sv1, sv2, bqx, bqy) && tri_depth(
                                            sv0,
                                            sv1,
                                            sv2,
                                            bqx,
                                            bqy,
                                        ) > #[trigger] zbuf_at(
                                            *model,
                                            *texture_image,
                                            w as int,
                                            h as int,
                                            i as nat,
                                            bqx,
                                            bqy,
                                        ) && !sample_ok(
                                            *texture_image,
                                            tri_u(sv0, sv1, sv2, uvv0, uvv1, uvv2, bqx, bqy),
                                            tri_v(sv0, sv1, sv2, uvv0, uvv1, uvv2, bqx, bqy),
                                        );
                                    lemma_render_inv_unfold(
                                        *model,
                                        *texture_image,
                                        w as int,
                                        h as int,
                                        bpps,
                                        old(self).image,
                                        zpre,
                                        ipre,
                                        i as nat,
                                        bqx,
                                        bqy,
                                    );
                                    assert(zpre[bqx]@[bqy] == zbuf_at(
                                        *model,
                                        *texture_image,
                                        w as int,
                                        h as int,
                                        i as nat,
                                        bqx,
                                        bqy,
                                    ));
                                }
                            }
                        }
                    },
                    Err(e) => {
                        proof {
                            let epx = e->TextureNotFound_x as int;
                            let epy = e->TextureNotFound_y as int;
                            lemma_render_inv_unfold(
                                *model,
                                *texture_image,
                                w as int,
                                h as int,
                                bpps,
                                old(self).image,
                                zpre,
                                ipre,
                                i as nat,
                                epx,
                                epy,
                            );
                            assert(zbuf_at(
                                *model,
                                *texture_image,
                                w as int,
                                h as int,
                                (i as int) as nat,
                                epx,
                                epy,
                            ) == zpre[epx]@[epy]);
                            assert(0 <= epx < w as int && 0 <= epy < h as int && tri_covered(
                                face_vertex(*model, w as int, h as int, i as int, 0),
                                face_vertex(*model, w as int, h as int, i as int, 1),
                                face_vertex(*model, w as int, h as int, i as int, 2),
                                epx,
                                epy,
                            ) && tri_depth(
                                face_vertex(*model, w as int, h as int, i as int, 0),
                                face_vertex(*model, w as int, h as int, i as int, 1),
                                face_vertex(*model, w as int, h as int, i as int, 2),
                                epx,
                                epy,
                            ) > zbuf_at(
                                *model,
                                *texture_image,
                                w as int,
                                h as int,
                                (i as int) as nat,
                                epx,
                                epy,
                            ) && !sample_ok(
                                *texture_image,
                                tri_u(
                                    face_vertex(*model, w as int, h as int, i as int, 0),
                                    face_vertex(*model, w as int, h as int, i as int, 1),
                                    face_vertex(*model, w as int, h as int, i as int, 2),
                                    face_uv(*model, i as int, 0),
                                    face_uv(*model, i as int, 1),
                                    face_uv(*model, i as int, 2),
                                    epx,
                                    epy,
                                ),
                                tri_v(
                                    face_vertex(*model, w as int, h as int, i as int, 0),
                                    face_vertex(*model, w as int, h as int, i as int, 1),
                                    face_vertex(*model, w as int, h as int, i as int, 2),
                                    face_uv(*model, i as int, 0),
                                    face_uv(*model, i as int, 1),
                                    face_uv(*model, i as int, 2),
                                    epx,
                                    epy,
                                ),
                            ));
                            assert(face_drawn(*model, i as int));
                            assert(exists|qx: int, qy: int|
                                #![trigger zbuf_at(*model, *texture_image, w as int, h as int, (i as int) as nat, qx, qy)]
                                0 <= qx < w as int && 0 <= qy < h as int && tri_covered(
                                    face_vertex(*model, w as int, h as int, i as int, 0),
                                    face_vertex(*model, w as int, h as int, i as int, 1),
                                    face_vertex(*model, w as int, h as int, i as int, 2),
                                    qx,
                                    qy,
                                ) && tri_depth(
                                    face_vertex(*model, w as int, h as int, i as int, 0),
                                    face_vertex(*model, w as int, h as int, i as int, 1),
                                    face_vertex(*model, w as int, h as int, i as int, 2),
                                    qx,
                                    qy,
                                ) > zbuf_at(
                                    *model,
                                    *texture_image,
                                    w as int,
                                    h as int,
                                    (i as int) as nat,
                                    qx,
                                    qy,
                                ) && !sample_ok(
                                    *texture_image,
                                    tri_u(
                                        face_vertex(*model, w as int, h as int, i as int, 0),
                                        face_vertex(*model, w as int, h as int, i as int, 1),
                                        face_vertex(*model, w as int, h as int, i as int, 2),
                                        face_uv(*model, i as int, 0),
                                        face_uv(*model, i as int, 1),
                                        face_uv(*model, i as int, 2),
                                        qx,
                                        qy,
                                    ),
                                    tri_v(
                                        face_vertex(*model, w as int, h as int, i as int, 0),
                                        face_vertex(*model, w as int, h as int, i as int, 1),
                                        face_vertex(*model, w as int, h as int, i as int, 2),
                                        face_uv(*model, i as int, 0),
                                        face_uv(*model, i as int, 1),
                                        face_uv(*model, i as int, 2),
                                        qx,
                                        qy,
                                    ),
                                ));
                            lemma_face_fails_intro(
                                *model,
                                *texture_image,
                                w as int,
                                h as int,
                                i as int,
                                epx,
                                epy,
                            );
                        }
                        return Err(e);
                    },
                }
            } else {
                proof {
                    assert(render_inv(
                        *model,
                        *texture_image,
                        w as int,
                        h as int,
                        bpps,
                        old(self).image,
                        zbuffer@,
                        self.image,
                        (i + 1) as nat,
                    )) by {
                        assert forall|qx: int, qy: int|
                            old(self).image.in_bounds(qx, qy) implies #[trigger] render_pixel_state(
                            *model,
                            *texture_image,
                            w as int,
                            h as int,
                            bpps,
                            old(self).image,
                            zbuffer@,
                            self.image,
                            (i + 1) as nat,
                            qx,
                            qy,
                        ) by {
                            lemma_render_inv_unfold(
                                *model,
                                *texture_image,
                                w as int,
                                h as int,
                                bpps,
                                old(self).image,
                                zbuffer@,
                                self.image,
                                i as nat,
                                qx,
                                qy,
                            );
                        }
                    }
                    assert(!face_fails(*model, *texture_image, w as int, h as int, i as int));
                }
            }
            i += 1;
        }
        proof {
            assert forall|qx: int, qy: int|
                old(self).image.in_bounds(qx, qy) implies self.image.pixel_at(qx, qy) == pix_at(
                *model,
                *texture_image,
                w as int,
                h as int,
                bpps,
                old(self).image,
                model.faces@.len(),
                qx,
                qy,
            ) by {
                lemma_render_inv_unfold(
                    *model,
                    *texture_image,
                    w as int,
                    h as int,
                    bpps,
                    old(self).image,
                    zbuffer@,
                    self.image,
                    nf as nat,
                    qx,
                    qy,
                );
            }
        }
        Ok(())
    }

    /// Flips the image to its bottom-left display convention and serializes
    /// it with run-length compression.
    pub fn save_tga_image(&mut self) -> (out: Vec<u8>)
        requires
            old(self).wf(),
        ensures
            final(self).wf(),
            final(self).width == old(self).width,
            final(self).height == old(self).height,
            final(self).image.bytespp == old(self).image.bytespp,
            final(self).image.data@ == crate::tgaimage::flip_v_seq(
                old(self).image.data@,
                old(self).image.width as int,
                old(self).image.height as int,
                old(self).image.bytespp as int,
            ),
            out@.len() >= 44,
            out@ == crate::codec::tga_header(
                crate::codec::tga_type_code(final(self).image.bytespp as int, true),
                final(self).image.width as int,
                final(self).image.height as int,
                final(self).image.bytespp as int,
            ) + out@.subrange(18, out@.len() - 26) + crate::codec::tga_footer(),
            crate::codec::rle_decode(
                out@.subrange(18, out@.len() - 26),
                final(self).image.bytespp as nat,
                (final(self).image.width * final(self).image.height) as nat,
            ) == Some((final(self).image.data@, Seq::<u8>::empty())),
    {
        self.image.flip_vertically();
        self.image.write_tga_file(true)
    }
}

} // verus!
