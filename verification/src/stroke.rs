//! The stroke engine: Bresenham lines with a square brush.
//!
//! Endpoints are the projected vertices truncated to whole pixels, saturated
//! into the 32-bit range the way a float-to-int cast saturates. Every line
//! walks at most `dx - dy + 1` Bresenham steps, which covers any segment
//! since each step advances x or y by one pixel.

use vstd::prelude::*;
use crate::color::Px;
use crate::raster::blend_at;
use crate::math::{trunc_rat, Bbox};
use crate::geom::{CoordFx, RingFx, PolygonFx, MultiPolygonFx};
use crate::edge::{sxn, syn};

verus! {

/// Composites the color at `(x, y)` when that pixel exists.
pub open spec fn blend_if_in(img: Seq<u8>, w: int, h: int, x: int, y: int, c: Px) -> Seq<u8> {
    if 0 <= x < w && 0 <= y < h {
        blend_at(img, w, x, y, c)
    } else {
        img
    }
}

/// One brush column: `n` pixels downward from `(x, y0)`, clipped.
pub open spec fn brush_col(img: Seq<u8>, w: int, h: int, x: int, y0: int, n: nat, c: Px) -> Seq<
    u8,
>
    decreases n,
{
    if n == 0 {
        img
    } else {
        brush_col(blend_if_in(img, w, h, x, y0, c), w, h, x, y0 + 1, (n - 1) as nat, c)
    }
}

/// `ncols` brush columns rightward from `x0`, each `nrows` tall from `y0`.
pub open spec fn brush_cols(
    img: Seq<u8>,
    w: int,
    h: int,
    x0: int,
    ncols: nat,
    y0: int,
    nrows: nat,
    c: Px,
) -> Seq<u8>
    decreases ncols,
{
    if ncols == 0 {
        img
    } else {
        brush_cols(
            brush_col(img, w, h, x0, y0, nrows, c),
            w,
            h,
            x0 + 1,
            (ncols - 1) as nat,
            y0,
            nrows,
            c,
        )
    }
}

/// The square brush centered at `(px, py)` with half-width `hw`.
pub open spec fn brush_at(img: Seq<u8>, w: int, h: int, px: int, py: int, hw: int, c: Px) -> Seq<
    u8,
> {
    brush_cols(img, w, h, px - hw, (2 * hw + 1) as nat, py - hw, (2 * hw + 1) as nat, c)
}

/// One Bresenham step from `(x, y)` with error term `err`: x advances when
/// twice the error reaches `dy`, y advances when it has not passed `dx`.
pub open spec fn line_step(x: int, y: int, err: int, sx: int, sy: int, dx: int, dy: int) -> (
    int,
    int,
    int,
) {
    let e2 = 2 * err;
    let (x1, err1) = if e2 >= dy {
        (x + sx, err + dy)
    } else {
        (x, err)
    };
    let (y1, err2) = if e2 <= dx {
        (y + sy, err1 + dx)
    } else {
        (y, err1)
    };
    (x1, y1, err2)
}

/// The Bresenham walk: brush at the current point, stop at the endpoint,
/// else step, spending one unit of the step budget.
pub open spec fn line_walk(
    img: Seq<u8>,
    w: int,
    h: int,
    x: int,
    y: int,
    xe: int,
    ye: int,
    err: int,
    sx: int,
    sy: int,
    dx: int,
    dy: int,
    hw: int,
    c: Px,
    fuel: nat,
) -> Seq<u8>
    decreases fuel,
{
    let img2 = brush_at(img, w, h, x, y, hw, c);
    if x == xe && y == ye {
        img2
    } else if fuel == 0 {
        img2
    } else {
        let (x1, y1, err1) = line_step(x, y, err, sx, sy, dx, dy);
        line_walk(img2, w, h, x1, y1, xe, ye, err1, sx, sy, dx, dy, hw, c, (fuel - 1) as nat)
    }
}

/// A whole stroked segment between two integer endpoints.
pub open spec fn line_spec(
    img: Seq<u8>,
    w: int,
    h: int,
    x0: int,
    y0: int,
    x1: int,
    y1: int,
    hw: int,
    c: Px,
) -> Seq<u8> {
    let dx = if x1 >= x0 {
        x1 - x0
    } else {
        x0 - x1
    };
    let dy = if y1 >= y0 {
        -(y1 - y0)
    } else {
        -(y0 - y1)
    };
    let sx: int = if x0 < x1 {
        1
    } else {
        -1
    };
    let sy: int = if y0 < y1 {
        1
    } else {
        -1
    };
    line_walk(
        img,
        w,
        h,
        x0,
        y0,
        x1,
        y1,
        dx + dy,
        sx,
        sy,
        dx,
        dy,
        hw,
        c,
        (dx - dy + 1) as nat,
    )
}

/// The step budget does not bind: walking with any budget at least
/// `dx - dy + 1` gives the same image, because every step moves x or y one
/// pixel toward the endpoint and the walk stops there. The stroked segment
/// is therefore always drawn whole.
pub proof fn lemma_line_budget_suffices(
    img: Seq<u8>,
    w: int,
    h: int,
    x0: int,
    y0: int,
    x1: int,
    y1: int,
    hw: int,
    c: Px,
    fuel: nat,
)
    requires
        ({
            let dx = if x1 >= x0 {
                x1 - x0
            } else {
                x0 - x1
            };
            let dy = if y1 >= y0 {
                -(y1 - y0)
            } else {
                -(y0 - y1)
            };
            fuel >= dx - dy + 1
        }),
    ensures
        ({
            let dx = if x1 >= x0 {
                x1 - x0
            } else {
                x0 - x1
            };
            let dy = if y1 >= y0 {
                -(y1 - y0)
            } else {
                -(y0 - y1)
            };
            let sx: int = if x0 < x1 {
                1
            } else {
                -1
            };
            let sy: int = if y0 < y1 {
                1
            } else {
                -1
            };
            line_walk(img, w, h, x0, y0, x1, y1, dx + dy, sx, sy, dx, dy, hw, c, fuel) == line_spec(
                img,
                w,
                h,
                x0,
                y0,
                x1,
                y1,
                hw,
                c,
            )
        }),
{
    let dx = if x1 >= x0 {
        x1 - x0
    } else {
        x0 - x1
    };
    let dy = if y1 >= y0 {
        -(y1 - y0)
    } else {
        -(y0 - y1)
    };
    let sx: int = if x0 < x1 {
        1
    } else {
        -1
    };
    let sy: int = if y0 < y1 {
        1
    } else {
        -1
    };
    assert(x0 == x1 - sx * dx) by (nonlinear_arith)
        requires
            dx == if x1 >= x0 {
                x1 - x0
            } else {
                x0 - x1
            },
            sx == if x0 < x1 {
                1int
            } else {
                -1int
            },
    ;
    assert(y0 == y1 - sy * (-dy)) by (nonlinear_arith)
        requires
            dy == if y1 >= y0 {
                -(y1 - y0)
            } else {
                -(y0 - y1)
            },
            sy == if y0 < y1 {
                1int
            } else {
                -1int
            },
    ;
    lemma_walk_fuel_insensitive(
        img,
        w,
        h,
        x1,
        y1,
        sx,
        sy,
        dx,
        dy,
        hw,
        c,
        0,
        0,
        fuel,
        ((dx - dy + 1) as nat),
    );
}

/// Fuel insensitivity of the Bresenham walk, by induction on the steps
/// still to make: from a state `i` x-steps and `j` y-steps into the line,
/// any two budgets covering the remaining steps give the same image.
#[verifier::rlimit(100)]
proof fn lemma_walk_fuel_insensitive(
    img: Seq<u8>,
    w: int,
    h: int,
    xe: int,
    ye: int,
    sx: int,
    sy: int,
    dx: int,
    dy: int,
    hw: int,
    c: Px,
    i: int,
    j: int,
    fuel_a: nat,
    fuel_b: nat,
)
    requires
        sx == 1 || sx == -1,
        sy == 1 || sy == -1,
        dx >= 0,
        dy <= 0,
        0 <= i <= dx,
        0 <= j <= -dy,
        fuel_a >= (dx - i) + (-dy - j),
        fuel_b >= (dx - i) + (-dy - j),
    ensures
        ({
            let x = xe - sx * (dx - i);
            let y = ye - sy * (-dy - j);
            let err = dx + dy + i * dy + j * dx;
            line_walk(img, w, h, x, y, xe, ye, err, sx, sy, dx, dy, hw, c, fuel_a) == line_walk(
                img,
                w,
                h,
                x,
                y,
                xe,
                ye,
                err,
                sx,
                sy,
                dx,
                dy,
                hw,
                c,
                fuel_b,
            )
        }),
    decreases (dx - i) + (-dy - j),
{
    let x = xe - sx * (dx - i);
    let y = ye - sy * (-dy - j);
    let err = dx + dy + i * dy + j * dx;
    let img2 = brush_at(img, w, h, x, y, hw, c);
    assert(x == xe <==> i == dx) by (nonlinear_arith)
        requires
            x == xe - sx * (dx - i),
            sx == 1 || sx == -1,
            i <= dx,
    ;
    assert(y == ye <==> j == -dy) by (nonlinear_arith)
        requires
            y == ye - sy * (-dy - j),
            sy == 1 || sy == -1,
            j <= -dy,
    ;
    if x == xe && y == ye {
    } else {
        let e2 = 2 * err;
        let xstep = e2 >= dy;
        let ystep = e2 <= dx;
        assert(xstep || ystep) by (nonlinear_arith)
            requires
                e2 == 2 * (dx + dy + i * dy + j * dx),
                dx >= 0,
                dy <= 0,
                xstep == (e2 >= dy),
                ystep == (e2 <= dx),
        ;
        // no overshoot: a finished axis never steps again
        if i == dx && j < -dy {
            assert(!xstep) by (nonlinear_arith)
                requires
                    e2 == 2 * (dx + dy + dx * dy + j * dx),
                    i == dx,
                    0 <= j < -dy,
                    dx >= 0,
                    dy <= -1,
                    xstep == (e2 >= dy),
            ;
        }
        if j == -dy && i < dx {
            assert(!ystep) by (nonlinear_arith)
                requires
                    e2 == 2 * (dx + dy + i * dy + (-dy) * dx),
                    j == -dy,
                    0 <= i < dx,
                    dx >= 1,
                    dy <= 0,
                    ystep == (e2 <= dx),
            ;
        }
        let i2 = if xstep {
            i + 1
        } else {
            i
        };
        let j2 = if ystep {
            j + 1
        } else {
            j
        };
        let stepped = line_step(x, y, err, sx, sy, dx, dy);
        assert(stepped.0 == xe - sx * (dx - i2) && stepped.1 == ye - sy * (-dy - j2) && stepped.2
            == dx + dy + i2 * dy + j2 * dx) by (nonlinear_arith)
            requires
                stepped == line_step(x, y, err, sx, sy, dx, dy),
                x == xe - sx * (dx - i),
                y == ye - sy * (-dy - j),
                err == dx + dy + i * dy + j * dx,
                i2 == if 2 * err >= dy {
                    i + 1
                } else {
                    i
                },
                j2 == if 2 * err <= dx {
                    j + 1
                } else {
                    j
                },
        ;
        lemma_walk_fuel_insensitive(
            img2,
            w,
            h,
            xe,
            ye,
            sx,
            sy,
            dx,
            dy,
            hw,
            c,
            i2,
            j2,
            (fuel_a - 1) as nat,
            (fuel_b - 1) as nat,
        );
    }
}

/// Saturation into the 32-bit signed range, as a float cast saturates.
pub open spec fn sat32(v: int) -> int {
    if v < -0x8000_0000 {
        -0x8000_0000
    } else if v > 0x7fff_ffff {
        0x7fff_ffff
    } else {
        v
    }
}

/// A vertex projected to the screen and truncated to a whole pixel.
pub open spec fn stroke_pt(c: CoordFx, bb: Bbox, res: int, h: int) -> (int, int) {
    (sat32(trunc_rat(sxn(c, bb), res)), sat32(trunc_rat(syn(c, bb, res, h), res)))
}

/// A ring's boundary: one stroked segment between each pair of consecutive
/// vertices. The wrap-around segment is not drawn; closed rings repeat
/// their first vertex, which closes the boundary by itself.
pub open spec fn ring_stroke_upto(
    img: Seq<u8>,
    w: int,
    h: int,
    cs: Seq<CoordFx>,
    bb: Bbox,
    res: int,
    hw: int,
    c: Px,
    n: nat,
) -> Seq<u8>
    decreases n,
{
    if n == 0 || cs.len() < 2 {
        img
    } else {
        let prev = ring_stroke_upto(img, w, h, cs, bb, res, hw, c, (n - 1) as nat);
        let p0 = stroke_pt(cs[n - 1], bb, res, h);
        let p1 = stroke_pt(cs[n as int], bb, res, h);
        line_spec(prev, w, h, p0.0, p0.1, p1.0, p1.1, hw, c)
    }
}

/// A whole ring's boundary.
pub open spec fn ring_stroke(
    img: Seq<u8>,
    w: int,
    h: int,
    ring: RingFx,
    bb: Bbox,
    res: int,
    hw: int,
    c: Px,
) -> Seq<u8> {
    if ring.coords@.len() < 2 {
        img
    } else {
        ring_stroke_upto(
            img,
            w,
            h,
            ring.coords@,
            bb,
            res,
            hw,
            c,
            (ring.coords@.len() - 1) as nat,
        )
    }
}

/// The first `n` holes of a polygon, stroked in order.
pub open spec fn rings_stroke_upto(
    img: Seq<u8>,
    w: int,
    h: int,
    rings: Seq<RingFx>,
    bb: Bbox,
    res: int,
    hw: int,
    c: Px,
    n: nat,
) -> Seq<u8>
    decreases n,
{
    if n == 0 {
        img
    } else {
        ring_stroke(
            rings_stroke_upto(img, w, h, rings, bb, res, hw, c, (n - 1) as nat),
            w,
            h,
            rings[n - 1],
            bb,
            res,
            hw,
            c,
        )
    }
}

/// A polygon's boundary: the exterior ring, then each hole.
pub open spec fn poly_stroke(
    img: Seq<u8>,
    w: int,
    h: int,
    p: PolygonFx,
    bb: Bbox,
    res: int,
    hw: int,
    c: Px,
) -> Seq<u8> {
    rings_stroke_upto(
        ring_stroke(img, w, h, p.exterior, bb, res, hw, c),
        w,
        h,
        p.interiors@,
        bb,
        res,
        hw,
        c,
        p.interiors@.len(),
    )
}

/// The boundaries of the first `n` polygons.
pub open spec fn mp_stroke_upto(
    img: Seq<u8>,
    w: int,
    h: int,
    mp: MultiPolygonFx,
    bb: Bbox,
    res: int,
    hw: int,
    c: Px,
    n: nat,
) -> Seq<u8>
    decreases n,
{
    if n == 0 {
        img
    } else {
        poly_stroke(
            mp_stroke_upto(img, w, h, mp, bb, res, hw, c, (n - 1) as nat),
            w,
            h,
            mp.polygons@[n - 1],
            bb,
            res,
            hw,
            c,
        )
    }
}

/// Every boundary of the multipolygon, stroked fill-then-stroke order.
pub open spec fn mp_stroke(
    img: Seq<u8>,
    w: int,
    h: int,
    mp: MultiPolygonFx,
    bb: Bbox,
    res: int,
    hw: int,
    c: Px,
) -> Seq<u8> {
    mp_stroke_upto(img, w, h, mp, bb, res, hw, c, mp.polygons@.len())
}

/// Paints the square brush around `(px, py)`, clipping at the image edge.
fn paint_brush(image: &mut Vec<u8>, w: u32, h: u32, px: i128, py: i128, hw: i128, color: Px)
    requires
        old(image)@.len() == 4 * (w as int) * (h as int),
        1 <= w <= crate::MAX_DIMENSION,
        1 <= h <= crate::MAX_DIMENSION,
        0 <= hw <= 0x8000_0000,
        -0x100_0000_0000 <= px <= 0x100_0000_0000,
        -0x100_0000_0000 <= py <= 0x100_0000_0000,
    ensures
        final(image)@ == brush_at(
            old(image)@,
            w as int,
            h as int,
            px as int,
            py as int,
            hw as int,
            color,
        ),
        final(image)@.len() == old(image)@.len(),
{
    let ncols: i128 = 2 * hw + 1;
    let x0: i128 = px - hw;
    let y0: i128 = py - hw;
    let ghost img0 = image@;
    let ghost goal = brush_at(img0, w as int, h as int, px as int, py as int, hw as int, color);
    let mut k: i128 = 0;
    while k < ncols
        invariant
            0 <= k <= ncols,
            ncols == 2 * hw + 1,
            0 <= hw <= 0x8000_0000,
            x0 == px - hw,
            y0 == py - hw,
            -0x100_0000_0000 <= px <= 0x100_0000_0000,
            -0x100_0000_0000 <= py <= 0x100_0000_0000,
            1 <= w <= crate::MAX_DIMENSION,
            1 <= h <= crate::MAX_DIMENSION,
            image@.len() == 4 * (w as int) * (h as int),
            brush_cols(
                image@,
                w as int,
                h as int,
                x0 + k,
                (ncols - k) as nat,
                y0 as int,
                ncols as nat,
                color,
            ) == goal,
        decreases ncols - k,
    {
        let cx: i128 = x0 + k;
        let ghost colpre = image@;
        let mut j: i128 = 0;
        while j < ncols
            invariant
                0 <= j <= ncols,
                ncols == 2 * hw + 1,
                0 <= hw <= 0x8000_0000,
                y0 == py - hw,
                -0x300_0000_0000 <= cx <= 0x300_0000_0000,
                -0x100_0000_0000 <= py <= 0x100_0000_0000,
                1 <= w <= crate::MAX_DIMENSION,
                1 <= h <= crate::MAX_DIMENSION,
                image@.len() == 4 * (w as int) * (h as int),
                colpre.len() == image@.len(),
                brush_col(
                    image@,
                    w as int,
                    h as int,
                    cx as int,
                    y0 + j,
                    (ncols - j) as nat,
                    color,
                ) == brush_col(
                    colpre,
                    w as int,
                    h as int,
                    cx as int,
                    y0 as int,
                    ncols as nat,
                    color,
                ),
            decreases ncols - j,
        {
            let cy: i128 = y0 + j;
            if 0 <= cx && cx < w as i128 && 0 <= cy && cy < h as i128 {
                proof {
                    assert(4 * (cy as int * w as int + cx as int) + 4 <= 4 * (w as int) * (
                    h as int) && 4 * (cy as int * w as int + cx as int) + 4 <= 0xffff_ffff)
                        by (nonlinear_arith)
                        requires
                            0 <= cx < w <= 20000,
                            0 <= cy < h <= 20000,
                    ;
                }
                crate::raster::blend_pixel(image, w, cx as u32, cy as u32, color);
            }
            j += 1;
        }
        proof {
            assert(image@ == brush_col(
                colpre,
                w as int,
                h as int,
                cx as int,
                y0 as int,
                ncols as nat,
                color,
            ));
        }
        k += 1;
    }
}

impl crate::raster::Renderer {
    /// Draws one stroked segment between two pixel endpoints with the
    /// integer Bresenham walk and the square brush.
    pub(crate) fn draw_line(&mut self, from: (i128, i128), to: (i128, i128), color: Px, width: u32)
        requires
            old(self).wf(),
            -0x8000_0000 <= from.0 <= 0x7fff_ffff,
            -0x8000_0000 <= from.1 <= 0x7fff_ffff,
            -0x8000_0000 <= to.0 <= 0x7fff_ffff,
            -0x8000_0000 <= to.1 <= 0x7fff_ffff,
        ensures
            final(self).wf(),
            final(self).config == old(self).config,
            final(self).width == old(self).width,
            final(self).height == old(self).height,
            final(self).image@ == line_spec(
                old(self).image@,
                old(self).width as int,
                old(self).height as int,
                from.0 as int,
                from.1 as int,
                to.0 as int,
                to.1 as int,
                (width / 2) as int,
                color,
            ),
    {
        let w = self.width;
        let h = self.height;
        let (x0, y0) = from;
        let (x1, y1) = to;
        let dx: i128 = if x1 >= x0 {
            x1 - x0
        } else {
            x0 - x1
        };
        let dy: i128 = if y1 >= y0 {
            -(y1 - y0)
        } else {
            -(y0 - y1)
        };
        let sx: i128 = if x0 < x1 {
            1
        } else {
            -1
        };
        let sy: i128 = if y0 < y1 {
            1
        } else {
            -1
        };
        let hw: i128 = (width / 2) as i128;
        let mut err: i128 = dx + dy;
        let mut x = x0;
        let mut y = y0;
        let mut fuel: i128 = dx - dy + 1;
        let ghost fuel0 = fuel as int;
        let ghost img0 = self.image@;
        let ghost goal = line_spec(
            img0,
            w as int,
            h as int,
            x0 as int,
            y0 as int,
            x1 as int,
            y1 as int,
            hw as int,
            color,
        );
        loop
            invariant_except_break
                line_walk(
                    self.image@,
                    w as int,
                    h as int,
                    x as int,
                    y as int,
                    x1 as int,
                    y1 as int,
                    err as int,
                    sx as int,
                    sy as int,
                    dx as int,
                    dy as int,
                    hw as int,
                    color,
                    fuel as nat,
                ) == goal,
            invariant
                self.config == old(self).config,
                self.width == old(self).width,
                self.height == old(self).height,
                w == self.width,
                h == self.height,
                old(self).wf(),
                self.image@.len() == 4 * (w as int) * (h as int),
                0 <= dx <= 0x1_0000_0000,
                -0x1_0000_0000 <= dy <= 0,
                sx == 1 || sx == -1,
                sy == 1 || sy == -1,
                0 <= hw <= 0x8000_0000,
                0 <= fuel <= fuel0,
                fuel0 == dx - dy + 1,
                -0x8000_0000 <= x1 <= 0x7fff_ffff,
                -0x8000_0000 <= y1 <= 0x7fff_ffff,
                -0x8000_0000 - fuel0 + fuel <= x <= 0x7fff_ffff + fuel0 - fuel,
                -0x8000_0000 - fuel0 + fuel <= y <= 0x7fff_ffff + fuel0 - fuel,
                -(fuel0 - fuel + 1) * 0x4_0000_0000 <= err <= (fuel0 - fuel + 1) * 0x4_0000_0000,
            ensures
                self.image@ == goal,
            decreases fuel,
        {
            let ghost pre = self.image@;
            paint_brush(&mut self.image, w, h, x, y, hw, color);
            if x == x1 && y == y1 {
                break ;
            }
            if fuel == 0 {
                break ;
            }
            proof {
                assert((fuel0 - fuel + 2) * 0x4_0000_0000 == (fuel0 - fuel + 1) * 0x4_0000_0000
                    + 0x4_0000_0000) by (nonlinear_arith);
                assert((fuel0 - fuel + 1) * 0x4_0000_0000 >= 0) by (nonlinear_arith)
                    requires
                        fuel <= fuel0,
                ;
            }
            let e2: i128 = 2 * err;
            let ghost stepped = crate::stroke::line_step(
                x as int,
                y as int,
                err as int,
                sx as int,
                sy as int,
                dx as int,
                dy as int,
            );
            if e2 >= dy {
                err = err + dy;
                x = x + sx;
            }
            if e2 <= dx {
                err = err + dx;
                y = y + sy;
            }
            proof {
                assert(stepped == (x as int, y as int, err as int));
            }
            fuel = fuel - 1;
        }
    }

    /// Draws the boundary of one ring: a stroked segment between each pair
    /// of consecutive projected vertices.
    pub(crate) fn draw_linestring(&mut self, ring: &RingFx, color: Px, width: u32)
        requires
            old(self).wf(),
            crate::geom::ring_wf(*ring),
        ensures
            final(self).wf(),
            final(self).config == old(self).config,
            final(self).width == old(self).width,
            final(self).height == old(self).height,
            final(self).image@ == ring_stroke(
                old(self).image@,
                old(self).width as int,
                old(self).height as int,
                *ring,
                old(self).config.bbox,
                old(self).config.resolution as int,
                (width / 2) as int,
                color,
            ),
    {
        if ring.coords.len() < 2 {
            return ;
        }
        let ghost bb = self.config.bbox;
        let ghost res = self.config.resolution as int;
        let ghost h_int = self.height as int;
        let ghost img0 = self.image@;
        let n = ring.coords.len();
        let mut i: usize = 0;
        while i < n - 1
            invariant
                0 <= i <= n - 1,
                n == ring.coords@.len(),
                n >= 2,
                crate::geom::ring_wf(*ring),
                self.config == old(self).config,
                self.width == old(self).width,
                self.height == old(self).height,
                old(self).wf(),
                self.wf(),
                bb == self.config.bbox,
                res == self.config.resolution as int,
                h_int == self.height as int,
                self.image@ == ring_stroke_upto(
                    img0,
                    self.width as int,
                    h_int,
                    ring.coords@,
                    bb,
                    res,
                    (width / 2) as int,
                    color,
                    i as nat,
                ),
            decreases n - 1 - i,
        {
            let p0 = stroke_pt_exec(&ring.coords[i], &self.config.bbox.clone(), self.config.resolution, self.height);
            let p1 = stroke_pt_exec(&ring.coords[i + 1], &self.config.bbox.clone(), self.config.resolution, self.height);
            self.draw_line(p0, p1, color, width);
            i += 1;
        }
    }

    /// Draws the boundary of a polygon: the exterior ring, then each hole,
    /// in the fully opaque stroke color.
    pub(crate) fn render_polygon_stroke(&mut self, polygon: &PolygonFx)
        requires
            old(self).wf(),
            crate::geom::poly_wf(*polygon),
        ensures
            final(self).wf(),
            final(self).config == old(self).config,
            final(self).width == old(self).width,
            final(self).height == old(self).height,
            final(self).image@ == poly_stroke(
                old(self).image@,
                old(self).width as int,
                old(self).height as int,
                *polygon,
                old(self).config.bbox,
                old(self).config.resolution as int,
                (old(self).config.stroke_width / 2) as int,
                old(self).stroke_px(),
            ),
    {
        let color: Px = (self.config.stroke[0], self.config.stroke[1], self.config.stroke[2], 255);
        let width = self.config.stroke_width;
        self.draw_linestring(&polygon.exterior, color, width);
        let ghost img1 = self.image@;
        let ghost bb = self.config.bbox;
        let ghost res = self.config.resolution as int;
        let ghost h_int = self.height as int;
        let mut r: usize = 0;
        while r < polygon.interiors.len()
            invariant
                0 <= r <= polygon.interiors@.len(),
                crate::geom::poly_wf(*polygon),
                self.config == old(self).config,
                self.width == old(self).width,
                self.height == old(self).height,
                old(self).wf(),
                self.wf(),
                bb == self.config.bbox,
                res == self.config.resolution as int,
                h_int == self.height as int,
                color == old(self).stroke_px(),
                width == old(self).config.stroke_width,
                self.image@ == rings_stroke_upto(
                    img1,
                    self.width as int,
                    h_int,
                    polygon.interiors@,
                    bb,
                    res,
                    (width / 2) as int,
                    color,
                    r as nat,
                ),
            decreases polygon.interiors@.len() - r,
        {
            self.draw_linestring(&polygon.interiors[r], color, width);
            r += 1;
        }
    }
}

/// Projects a vertex and truncates it to a whole pixel, saturating into the
/// 32-bit range.
fn stroke_pt_exec(c: &CoordFx, bbox: &Bbox, resolution: i64, height: u32) -> (r: (i128, i128))
    requires
        crate::geom::coord_wf(*c),
        bbox.wf(),
        resolution >= 1,
        height <= crate::MAX_DIMENSION,
    ensures
        (r.0 as int, r.1 as int) == stroke_pt(*c, *bbox, resolution as int, height as int),
        -0x8000_0000 <= r.0 <= 0x7fff_ffff,
        -0x8000_0000 <= r.1 <= 0x7fff_ffff,
{
    proof {
        crate::edge::lemma_screen_bounds(*c, *bbox, resolution as int, height as int);
    }
    let p = crate::math::world_to_screen(c.lon, c.lat, bbox, resolution, height);
    let tx = crate::math::trunc_div(p.xn as i128, resolution as i128);
    let ty = crate::math::trunc_div(p.yn, resolution as i128);
    let sx: i128 = if tx < -0x8000_0000 {
        -0x8000_0000
    } else if tx > 0x7fff_ffff {
        0x7fff_ffff
    } else {
        tx
    };
    let sy: i128 = if ty < -0x8000_0000 {
        -0x8000_0000
    } else if ty > 0x7fff_ffff {
        0x7fff_ffff
    } else {
        ty
    };
    (sx, sy)
}

} // verus!
