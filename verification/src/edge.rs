//! Scanline edge generation and the Global Edge Table.
//!
//! An edge holds the exact rational position of its lower endpoint and of
//! its slope, as integer numerators over a shared positive denominator, so
//! the x position at any scanline is computed exactly and rounded once.

use vstd::prelude::*;
use crate::math::{round_rat, round_div, Bbox, ScreenPt, world_to_screen};
use crate::geom::{PolygonFx, RingFx};

verus! {

/// Largest magnitude of a screen-x numerator coming out of
/// `world_to_screen`: two coordinates within range, subtracted.
pub const XN_ABS_MAX: i64 = 1_440_000_000_000;

/// Largest magnitude of a screen-y numerator for images up to
/// `MAX_DIMENSION` rows: `height * resolution` plus the coordinate range.
pub const YN_ABS_MAX: i128 = 200_000_000_000_000_000_000_000;

/// Largest screen-y difference between two in-range vertices.
pub const DY_ABS_MAX: i128 = 3_000_000_000_000;

/// Largest magnitude of an edge's `x_current` numerator.
pub const XNUM_ABS_MAX: i128 = 5_000_000_000_000_000_000_000_000;

/// Mathematical model of an edge, over unbounded integers.
pub ghost struct EdgeModel {
    /// First scanline on which the edge is active.
    pub y_start: int,
    /// Scanline at which the edge dies; rows `y_start <= y < y_max` see it.
    pub y_max: int,
    /// Numerator of the x position at `y_start`, over `den`.
    pub x_num: int,
    /// Numerator of the per-row x increment, over `den`.
    pub step_num: int,
    /// Common positive denominator.
    pub den: int,
}

/// Model of a non-horizontal segment between two screen points given as
/// rationals over `res`; `None` for a horizontal segment.
pub open spec fn edge_model(x1: int, y1: int, x2: int, y2: int, res: int) -> Option<EdgeModel> {
    if y1 == y2 {
        None
    } else {
        let (xs, ys, xe, ye) = if y1 < y2 {
            (x1, y1, x2, y2)
        } else {
            (x2, y2, x1, y1)
        };
        Some(
            EdgeModel {
                y_start: round_rat(ys, res),
                y_max: round_rat(ye, res),
                x_num: xs * (ye - ys),
                step_num: res * (xe - xs),
                den: res * (ye - ys),
            },
        )
    }
}

/// Size bounds under which the x-at-row computation cannot overflow.
pub open spec fn edge_bounds(e: EdgeModel, res: int) -> bool {
    &&& 0 < e.den <= res * DY_ABS_MAX
    &&& -XNUM_ABS_MAX <= e.x_num <= XNUM_ABS_MAX
    &&& -res * DY_ABS_MAX <= e.step_num <= res * DY_ABS_MAX
    &&& -YN_ABS_MAX <= e.y_start <= YN_ABS_MAX
    &&& -YN_ABS_MAX <= e.y_max <= YN_ABS_MAX
}

/// Exact x position of the edge at scanline `y`, rounded half away from
/// zero, in pixel columns.
pub open spec fn x_at_row(e: EdgeModel, y: int) -> int {
    round_rat(e.x_num + (y - e.y_start) * e.step_num, e.den)
}

/// An edge of the Global Edge Table.
#[derive(Debug, Clone)]
pub struct Edge {
    /// First scanline on which the edge is active.
    pub y_start: i128,
    /// Scanline at which the edge dies.
    pub y_max: i128,
    /// Numerator of the x position at `y_start`.
    pub x_current: i128,
    /// Numerator of the per-row x increment.
    pub inv_slope: i128,
    /// Common positive denominator of `x_current` and `inv_slope`.
    pub den: i128,
}

impl View for Edge {
    type V = EdgeModel;

    open spec fn view(&self) -> EdgeModel {
        EdgeModel {
            y_start: self.y_start as int,
            y_max: self.y_max as int,
            x_num: self.x_current as int,
            step_num: self.inv_slope as int,
            den: self.den as int,
        }
    }
}

impl Edge {
    /// Builds the edge between two projected points, or `None` when the
    /// segment is horizontal.
    pub fn new(p1: ScreenPt, p2: ScreenPt, resolution: i64) -> (r: Option<Edge>)
        requires
            resolution >= 1,
            -XN_ABS_MAX <= p1.xn <= XN_ABS_MAX,
            -XN_ABS_MAX <= p2.xn <= XN_ABS_MAX,
            -YN_ABS_MAX <= p1.yn <= YN_ABS_MAX,
            -YN_ABS_MAX <= p2.yn <= YN_ABS_MAX,
            -DY_ABS_MAX <= p1.yn - p2.yn <= DY_ABS_MAX,
        ensures
            r is Some <==> edge_model(
                p1.xn as int,
                p1.yn as int,
                p2.xn as int,
                p2.yn as int,
                resolution as int,
            ) is Some,
            r matches Some(e) ==> {
                &&& Some(e@) == edge_model(
                    p1.xn as int,
                    p1.yn as int,
                    p2.xn as int,
                    p2.yn as int,
                    resolution as int,
                )
                &&& edge_bounds(e@, resolution as int)
            },
    {
        if p1.yn == p2.yn {
            return None;
        }
        let (xs, ys, xe, ye) = if p1.yn < p2.yn {
            (p1.xn, p1.yn, p2.xn, p2.yn)
        } else {
            (p2.xn, p2.yn, p1.xn, p1.yn)
        };
        let res = resolution as i128;
        let dy: i128 = ye - ys;
        proof {
            assert(res * dy <= res * DY_ABS_MAX && res * dy >= res && res * (xe as int - xs as int)
                <= res * DY_ABS_MAX && res * (xe as int - xs as int) >= -res * DY_ABS_MAX)
                by (nonlinear_arith)
                requires
                    res >= 1,
                    1 <= dy <= DY_ABS_MAX,
                    -DY_ABS_MAX <= xe as int - xs as int <= DY_ABS_MAX,
            ;
            assert(res * DY_ABS_MAX <= 0x7fff_ffff_ffff_ffff * DY_ABS_MAX) by (nonlinear_arith)
                requires
                    1 <= res <= 0x7fff_ffff_ffff_ffff,
            ;
            assert((xs as int) * dy <= XNUM_ABS_MAX && (xs as int) * dy >= -XNUM_ABS_MAX)
                by (nonlinear_arith)
                requires
                    1 <= dy <= DY_ABS_MAX,
                    -XN_ABS_MAX <= xs as int <= XN_ABS_MAX,
            ;
        }
        let y_start = round_div(ys, res);
        let y_max = round_div(ye, res);
        let x_current: i128 = (xs as i128) * dy;
        let inv_slope: i128 = res * ((xe as i128) - (xs as i128));
        let den: i128 = res * dy;
        proof {
            assert(-YN_ABS_MAX <= round_rat(ys as int, res as int) <= YN_ABS_MAX
                && -YN_ABS_MAX <= round_rat(ye as int, res as int) <= YN_ABS_MAX) by {
                lemma_round_rat_abs_le(ys as int, res as int, YN_ABS_MAX as int);
                lemma_round_rat_abs_le(ye as int, res as int, YN_ABS_MAX as int);
            }
        }
        Some(Edge { y_start, y_max, x_current, inv_slope, den })
    }
}

/// Numerator of the screen x position of a vertex, over `res`.
pub open spec fn sxn(c: crate::geom::CoordFx, bb: Bbox) -> int {
    c.lon - bb.min_lon
}

/// Numerator of the screen y position of a vertex, over `res`.
pub open spec fn syn(c: crate::geom::CoordFx, bb: Bbox, res: int, h: int) -> int {
    h * res - (c.lat - bb.min_lat)
}

/// Model of the segment from vertex `i` of a ring to the next one, with
/// wrap-around at the end.
pub open spec fn seg_edge(
    cs: Seq<crate::geom::CoordFx>,
    i: int,
    bb: Bbox,
    res: int,
    h: int,
) -> Option<EdgeModel> {
    let j = if i + 1 == cs.len() {
        0int
    } else {
        i + 1
    };
    edge_model(
        sxn(cs[i], bb),
        syn(cs[i], bb, res, h),
        sxn(cs[j], bb),
        syn(cs[j], bb, res, h),
        res,
    )
}

/// Model of one bucket of the table.
pub open spec fn bucket_model(v: Seq<Edge>) -> Seq<EdgeModel> {
    v.map_values(|e: Edge| e@)
}

/// Model of the whole table: one bucket of edge models per scanline.
pub open spec fn table_model(entries: Seq<Vec<Edge>>) -> Seq<Seq<EdgeModel>> {
    entries.map_values(|v: Vec<Edge>| bucket_model(v@))
}

/// The table after offering it one edge: appended to the bucket of its
/// starting scanline, or dropped when that scanline is outside the table.
pub open spec fn model_add(tm: Seq<Seq<EdgeModel>>, y_min: int, e: EdgeModel) -> Seq<
    Seq<EdgeModel>,
> {
    let idx = e.y_start - y_min;
    if 0 <= idx < tm.len() {
        tm.update(idx, tm[idx].push(e))
    } else {
        tm
    }
}

/// The table after the first `n` segments of a ring.
pub open spec fn ring_add_upto(
    tm: Seq<Seq<EdgeModel>>,
    y_min: int,
    cs: Seq<crate::geom::CoordFx>,
    bb: Bbox,
    res: int,
    h: int,
    n: nat,
) -> Seq<Seq<EdgeModel>>
    decreases n,
{
    if n == 0 {
        tm
    } else {
        let prev = ring_add_upto(tm, y_min, cs, bb, res, h, (n - 1) as nat);
        match seg_edge(cs, n - 1, bb, res, h) {
            Option::None => prev,
            Option::Some(e) => model_add(prev, y_min, e),
        }
    }
}

/// The table after a whole ring; rings of fewer than three vertices are
/// ignored.
pub open spec fn ring_add_model(
    tm: Seq<Seq<EdgeModel>>,
    y_min: int,
    ring: RingFx,
    bb: Bbox,
    res: int,
    h: int,
) -> Seq<Seq<EdgeModel>> {
    if ring.coords@.len() < 3 {
        tm
    } else {
        ring_add_upto(tm, y_min, ring.coords@, bb, res, h, ring.coords@.len())
    }
}

/// The table after the first `n` interior rings of a polygon.
pub open spec fn rings_add_upto(
    tm: Seq<Seq<EdgeModel>>,
    y_min: int,
    rings: Seq<RingFx>,
    bb: Bbox,
    res: int,
    h: int,
    n: nat,
) -> Seq<Seq<EdgeModel>>
    decreases n,
{
    if n == 0 {
        tm
    } else {
        ring_add_model(
            rings_add_upto(tm, y_min, rings, bb, res, h, (n - 1) as nat),
            y_min,
            rings[n - 1],
            bb,
            res,
            h,
        )
    }
}

/// The table after a whole polygon: the exterior ring, then each hole.
pub open spec fn poly_add_model(
    tm: Seq<Seq<EdgeModel>>,
    y_min: int,
    p: PolygonFx,
    bb: Bbox,
    res: int,
    h: int,
) -> Seq<Seq<EdgeModel>> {
    rings_add_upto(
        ring_add_model(tm, y_min, p.exterior, bb, res, h),
        y_min,
        p.interiors@,
        bb,
        res,
        h,
        p.interiors@.len(),
    )
}

/// The Global Edge Table: edges grouped by the scanline on which they
/// become active, indexed relative to `y_min`.
#[derive(Debug)]
pub struct ScanlineTable {
    /// Scanline of the first bucket.
    pub y_min: i128,
    /// One bucket per scanline; `entries[i]` holds the edges that start at
    /// scanline `y_min + i`.
    pub entries: Vec<Vec<Edge>>,
}

impl ScanlineTable {
    /// The table's mathematical content.
    pub open spec fn model(self) -> Seq<Seq<EdgeModel>> {
        table_model(self.entries@)
    }

    /// Every stored edge is size-bounded and sits in the bucket of its
    /// starting scanline.
    pub open spec fn wf(self, res: int) -> bool {
        &&& -YN_ABS_MAX <= self.y_min <= YN_ABS_MAX
        &&& forall|b: int, i: int|
            0 <= b < self.model().len() && 0 <= i < self.model()[b].len() ==> {
                &&& edge_bounds(#[trigger] self.model()[b][i], res)
                &&& self.model()[b][i].y_start == self.y_min + b
            }
    }

    /// An empty table with one bucket per scanline of the image.
    pub fn new(y_min: i128, height: u32) -> (r: Self)
        requires
            -YN_ABS_MAX <= y_min <= YN_ABS_MAX,
        ensures
            r.y_min == y_min,
            r.model().len() == height,
            forall|b: int| 0 <= b < height ==> (#[trigger] r.model()[b]).len() == 0,
    {
        let mut entries: Vec<Vec<Edge>> = Vec::new();
        let mut i: u32 = 0;
        while i < height
            invariant
                0 <= i <= height,
                entries@.len() == i,
                forall|b: int| 0 <= b < i ==> (#[trigger] entries@[b])@.len() == 0,
            decreases height - i,
        {
            entries.push(Vec::new());
            i += 1;
        }
        ScanlineTable { y_min, entries }
    }

    /// Files an edge under its starting scanline; out-of-table scanlines
    /// drop the edge.
    pub fn add_edge(&mut self, y_start: i128, edge: Edge)
        requires
            edge@.y_start == y_start,
            -YN_ABS_MAX <= y_start <= YN_ABS_MAX,
            -YN_ABS_MAX <= old(self).y_min <= YN_ABS_MAX,
        ensures
            final(self).y_min == old(self).y_min,
            final(self).model() == model_add(old(self).model(), old(self).y_min as int, edge@),
            forall|res: int|
                old(self).wf(res) && edge_bounds(edge@, res) ==> final(self).wf(res),
    {
        let idx = y_start - self.y_min;
        if 0 <= idx && idx < self.entries.len() as i128 {
            let i = idx as usize;
            let ghost old_entries = self.entries@;
            self.entries[i].push(edge);
            proof {
                assert(self.entries@ == old_entries.update(i as int, self.entries@[i as int]));
                assert(self.model()[i as int] =~= table_model(old_entries)[i as int].push(edge@));
                assert(self.model() =~= table_model(old_entries).update(
                    i as int,
                    table_model(old_entries)[i as int].push(edge@),
                ));
            }
        }
    }

    /// Extracts the edges of one ring into the table. Rings of fewer than
    /// three vertices are ignored; horizontal segments are skipped.
    pub fn extract_from_ring(
        &mut self,
        ring: &RingFx,
        bbox: &Bbox,
        resolution: i64,
        img_height: u32,
    )
        requires
            crate::geom::ring_wf(*ring),
            bbox.wf(),
            resolution >= 1,
            img_height <= crate::MAX_DIMENSION,
            -YN_ABS_MAX <= old(self).y_min <= YN_ABS_MAX,
        ensures
            final(self).y_min == old(self).y_min,
            old(self).wf(resolution as int) ==> final(self).wf(resolution as int),
            final(self).model() == ring_add_model(
                old(self).model(),
                old(self).y_min as int,
                *ring,
                *bbox,
                resolution as int,
                img_height as int,
            ),
    {
        if ring.coords.len() < 3 {
            return ;
        }
        let n = ring.coords.len();
        let ghost cs = ring.coords@;
        let ghost res = resolution as int;
        let ghost h = img_height as int;
        let ghost tm0 = self.model();
        let ghost ymin = self.y_min as int;
        let mut i: usize = 0;
        while i < n
            invariant
                0 <= i <= n,
                n == cs.len(),
                3 <= n,
                cs == ring.coords@,
                crate::geom::ring_wf(*ring),
                bbox.wf(),
                resolution >= 1,
                img_height <= crate::MAX_DIMENSION,
                res == resolution as int,
                h == img_height as int,
                ymin == old(self).y_min as int,
                self.y_min == old(self).y_min,
                -YN_ABS_MAX <= self.y_min <= YN_ABS_MAX,
                old(self).wf(res) ==> self.wf(res),
                self.model() == ring_add_upto(tm0, ymin, cs, *bbox, res, h, i as nat),
            decreases n - i,
        {
            let c1 = ring.coords[i];
            let j = if i + 1 == n {
                0
            } else {
                i + 1
            };
            let c2 = ring.coords[j];
            proof {
                assert(coord_in_screen_bounds(c1, *bbox, res, h)) by {
                    lemma_screen_bounds(c1, *bbox, res, h);
                }
                assert(coord_in_screen_bounds(c2, *bbox, res, h)) by {
                    lemma_screen_bounds(c2, *bbox, res, h);
                }
            }
            let p1 = world_to_screen(c1.lon, c1.lat, bbox, resolution, img_height);
            let p2 = world_to_screen(c2.lon, c2.lat, bbox, resolution, img_height);
            match Edge::new(p1, p2, resolution) {
                Option::Some(e) => {
                    let ys = e.y_start;
                    self.add_edge(ys, e);
                },
                Option::None => {},
            }
            i += 1;
        }
    }

    /// Extracts the edges of a whole polygon: the exterior ring, then each
    /// hole.
    pub fn extract_from_polygon(
        &mut self,
        polygon: &PolygonFx,
        bbox: &Bbox,
        resolution: i64,
        img_height: u32,
    )
        requires
            crate::geom::poly_wf(*polygon),
            bbox.wf(),
            resolution >= 1,
            img_height <= crate::MAX_DIMENSION,
            -YN_ABS_MAX <= old(self).y_min <= YN_ABS_MAX,
        ensures
            final(self).y_min == old(self).y_min,
            old(self).wf(resolution as int) ==> final(self).wf(resolution as int),
            final(self).model() == poly_add_model(
                old(self).model(),
                old(self).y_min as int,
                *polygon,
                *bbox,
                resolution as int,
                img_height as int,
            ),
    {
        self.extract_from_ring(&polygon.exterior, bbox, resolution, img_height);
        let ghost tm1 = self.model();
        let ghost res = resolution as int;
        let ghost h = img_height as int;
        let ghost ymin = self.y_min as int;
        let mut r: usize = 0;
        while r < polygon.interiors.len()
            invariant
                0 <= r <= polygon.interiors@.len(),
                crate::geom::poly_wf(*polygon),
                bbox.wf(),
                resolution >= 1,
                img_height <= crate::MAX_DIMENSION,
                res == resolution as int,
                h == img_height as int,
                ymin == old(self).y_min as int,
                self.y_min == old(self).y_min,
                -YN_ABS_MAX <= self.y_min <= YN_ABS_MAX,
                old(self).wf(res) ==> self.wf(res),
                self.model() == rings_add_upto(
                    tm1,
                    ymin,
                    polygon.interiors@,
                    *bbox,
                    res,
                    h,
                    r as nat,
                ),
            decreases polygon.interiors@.len() - r,
        {
            self.extract_from_ring(&polygon.interiors[r], bbox, resolution, img_height);
            r += 1;
        }
    }
}

/// The screen numerators of an in-range vertex are within the bounds that
/// `Edge::new` asks for.
pub open spec fn coord_in_screen_bounds(c: crate::geom::CoordFx, bb: Bbox, res: int, h: int) -> bool {
    &&& -XN_ABS_MAX <= sxn(c, bb) <= XN_ABS_MAX
    &&& -YN_ABS_MAX <= syn(c, bb, res, h) <= YN_ABS_MAX
}

/// Screen-numerator bounds follow from the coordinate range, the window
/// range, the dimension cap and a positive resolution.
pub proof fn lemma_screen_bounds(c: crate::geom::CoordFx, bb: Bbox, res: int, h: int)
    requires
        crate::geom::coord_wf(c),
        bb.wf(),
        1 <= res <= 0x7fff_ffff_ffff_ffff,
        0 <= h <= crate::MAX_DIMENSION,
    ensures
        coord_in_screen_bounds(c, bb, res, h),
{
    assert(0 <= h * res <= 20000 * 0x7fff_ffff_ffff_ffff) by (nonlinear_arith)
        requires
            0 <= h <= 20000,
            1 <= res <= 0x7fff_ffff_ffff_ffff,
    ;
}

/// Rounding `n / d` cannot grow the magnitude past a bound on `n`.
pub proof fn lemma_round_rat_abs_le(n: int, d: int, bound: int)
    requires
        d >= 1,
        -bound <= n <= bound,
        bound >= 0,
    ensures
        -bound <= round_rat(n, d) <= bound,
{
    if n >= 0 {
        assert(2 * n + d <= 2 * bound * d + d) by (nonlinear_arith)
            requires
                d >= 1,
                0 <= n <= bound,
        ;
        assert((2 * bound * d + d) / (2 * d) <= bound) by (nonlinear_arith)
            requires
                d >= 1,
                bound >= 0,
        ;
        vstd::arithmetic::div_mod::lemma_div_is_ordered(2 * n + d, 2 * bound * d + d, 2 * d);
        vstd::arithmetic::div_mod::lemma_div_pos_is_pos(2 * n + d, 2 * d);
    } else {
        assert(2 * (-n) + d <= 2 * bound * d + d) by (nonlinear_arith)
            requires
                d >= 1,
                0 <= -n <= bound,
        ;
        assert((2 * bound * d + d) / (2 * d) <= bound) by (nonlinear_arith)
            requires
                d >= 1,
                bound >= 0,
        ;
        vstd::arithmetic::div_mod::lemma_div_is_ordered(2 * (-n) + d, 2 * bound * d + d, 2 * d);
        vstd::arithmetic::div_mod::lemma_div_pos_is_pos(2 * (-n) + d, 2 * d);
    }
}

} // verus!
