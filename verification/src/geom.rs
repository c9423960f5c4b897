//! Polygon geometry in nano-degree coordinates.

use vstd::prelude::*;
use crate::math::{Bbox, MAX_COORD_NANO};

verus! {

/// One WGS84 vertex in nano-degrees.
#[derive(Debug, Clone, Copy, PartialEq, Eq, Structural)]
pub struct CoordFx {
    /// Longitude.
    pub lon: i64,
    /// Latitude.
    pub lat: i64,
}

/// A ring: a closed run of vertices. The segment from the last vertex back
/// to the first is implied.
#[derive(Debug, Clone)]
pub struct RingFx {
    /// The vertices in order.
    pub coords: Vec<CoordFx>,
}

/// One polygon: an exterior ring and any number of holes.
#[derive(Debug, Clone)]
pub struct PolygonFx {
    /// The outer boundary.
    pub exterior: RingFx,
    /// The holes.
    pub interiors: Vec<RingFx>,
}

/// An ordered collection of polygons.
#[derive(Debug, Clone)]
pub struct MultiPolygonFx {
    /// The polygons in order.
    pub polygons: Vec<PolygonFx>,
}

/// The vertex lies within the coordinate range of the model.
pub open spec fn coord_wf(c: CoordFx) -> bool {
    &&& -MAX_COORD_NANO <= c.lon <= MAX_COORD_NANO
    &&& -MAX_COORD_NANO <= c.lat <= MAX_COORD_NANO
}

/// Every vertex of the ring is in range.
pub open spec fn ring_wf(r: RingFx) -> bool {
    forall|i: int| 0 <= i < r.coords@.len() ==> coord_wf(#[trigger] r.coords@[i])
}

/// Every ring of the polygon is in range.
pub open spec fn poly_wf(p: PolygonFx) -> bool {
    &&& ring_wf(p.exterior)
    &&& forall|i: int| 0 <= i < p.interiors@.len() ==> ring_wf(#[trigger] p.interiors@[i])
}

/// Every polygon of the collection is in range.
pub open spec fn mp_wf(mp: MultiPolygonFx) -> bool {
    forall|i: int| 0 <= i < mp.polygons@.len() ==> poly_wf(#[trigger] mp.polygons@[i])
}

/// All vertices of a run of rings, flattened in order.
pub open spec fn rings_coord_seq(rings: Seq<RingFx>) -> Seq<CoordFx>
    decreases rings.len(),
{
    if rings.len() == 0 {
        Seq::empty()
    } else {
        rings_coord_seq(rings.drop_last()) + rings.last().coords@
    }
}

/// All vertices of a polygon: exterior first, then each hole.
pub open spec fn poly_coord_seq(p: PolygonFx) -> Seq<CoordFx> {
    p.exterior.coords@ + rings_coord_seq(p.interiors@)
}

/// All vertices of a run of polygons, flattened in order.
pub open spec fn polys_coord_seq(ps: Seq<PolygonFx>) -> Seq<CoordFx>
    decreases ps.len(),
{
    if ps.len() == 0 {
        Seq::empty()
    } else {
        polys_coord_seq(ps.drop_last()) + poly_coord_seq(ps.last())
    }
}

/// All vertices of a run of multipolygons, flattened in order.
pub open spec fn mps_coord_seq(mps: Seq<MultiPolygonFx>) -> Seq<CoordFx>
    decreases mps.len(),
{
    if mps.len() == 0 {
        Seq::empty()
    } else {
        mps_coord_seq(mps.drop_last()) + polys_coord_seq(mps.last().polygons@)
    }
}

fn append_ring_coords(out: &mut Vec<CoordFx>, ring: &RingFx)
    ensures
        final(out)@ == old(out)@ + ring.coords@,
{
    let mut i: usize = 0;
    while i < ring.coords.len()
        invariant
            0 <= i <= ring.coords@.len(),
            out@ =~= old(out)@ + ring.coords@.take(i as int),
        decreases ring.coords@.len() - i,
    {
        out.push(ring.coords[i]);
        i += 1;
    }
    proof {
        assert(out@ =~= old(out)@ + ring.coords@);
    }
}

fn append_poly_coords(out: &mut Vec<CoordFx>, p: &PolygonFx)
    ensures
        final(out)@ == old(out)@ + poly_coord_seq(*p),
{
    append_ring_coords(out, &p.exterior);
    let mut r: usize = 0;
    while r < p.interiors.len()
        invariant
            0 <= r <= p.interiors@.len(),
            out@ =~= old(out)@ + p.exterior.coords@ + rings_coord_seq(p.interiors@.take(r as int)),
        decreases p.interiors@.len() - r,
    {
        append_ring_coords(out, &p.interiors[r]);
        proof {
            assert(p.interiors@.take(r + 1).drop_last() =~= p.interiors@.take(r as int));
            assert(p.interiors@.take(r + 1).last() == p.interiors@[r as int]);
        }
        r += 1;
    }
    proof {
        assert(p.interiors@.take(p.interiors@.len() as int) =~= p.interiors@);
        assert(out@ =~= old(out)@ + poly_coord_seq(*p));
    }
}

/// Every vertex of every geometry, flattened in order.
pub fn all_coords(geometries: &Vec<MultiPolygonFx>) -> (r: Vec<CoordFx>)
    ensures
        r@ == mps_coord_seq(geometries@),
{
    let mut out: Vec<CoordFx> = Vec::new();
    let mut m: usize = 0;
    while m < geometries.len()
        invariant
            0 <= m <= geometries@.len(),
            out@ =~= mps_coord_seq(geometries@.take(m as int)),
        decreases geometries@.len() - m,
    {
        let mp = &geometries[m];
        let mut p: usize = 0;
        while p < mp.polygons.len()
            invariant
                0 <= p <= mp.polygons@.len(),
                0 <= m < geometries@.len(),
                mp == &geometries@[m as int],
                out@ =~= mps_coord_seq(geometries@.take(m as int)) + polys_coord_seq(
                    mp.polygons@.take(p as int),
                ),
            decreases mp.polygons@.len() - p,
        {
            append_poly_coords(&mut out, &mp.polygons[p]);
            proof {
                assert(mp.polygons@.take(p + 1).drop_last() =~= mp.polygons@.take(p as int));
                assert(mp.polygons@.take(p + 1).last() == mp.polygons@[p as int]);
            }
            p += 1;
        }
        proof {
            assert(mp.polygons@.take(mp.polygons@.len() as int) =~= mp.polygons@);
            assert(geometries@.take(m + 1).drop_last() =~= geometries@.take(m as int));
            assert(geometries@.take(m + 1).last() == geometries@[m as int]);
        }
        m += 1;
    }
    proof {
        assert(geometries@.take(geometries@.len() as int) =~= geometries@);
    }
    out
}

/// Bounding box over every vertex of every geometry, or `None` when there
/// is no vertex at all. The result can be degenerate (a single point gives
/// `min == max`); the caller validates it as a window.
pub fn compute_bbox(geometries: &Vec<MultiPolygonFx>) -> (r: Option<Bbox>)
    ensures
        r is Some <==> mps_coord_seq(geometries@).len() > 0,
        r matches Some(bb) ==> {
            let cs = mps_coord_seq(geometries@);
            &&& forall|i: int|
                0 <= i < cs.len() ==> bb.min_lon <= (#[trigger] cs[i]).lon <= bb.max_lon
                    && bb.min_lat <= cs[i].lat <= bb.max_lat
            &&& exists|i: int| 0 <= i < cs.len() && (#[trigger] cs[i]).lon == bb.min_lon
            &&& exists|i: int| 0 <= i < cs.len() && (#[trigger] cs[i]).lat == bb.min_lat
            &&& exists|i: int| 0 <= i < cs.len() && (#[trigger] cs[i]).lon == bb.max_lon
            &&& exists|i: int| 0 <= i < cs.len() && (#[trigger] cs[i]).lat == bb.max_lat
        },
{
    let coords = all_coords(geometries);
    if coords.len() == 0 {
        return None;
    }
    let ghost cs = coords@;
    let first = coords[0];
    let mut min_lon: i64 = first.lon;
    let mut min_lat: i64 = first.lat;
    let mut max_lon: i64 = first.lon;
    let mut max_lat: i64 = first.lat;
    let mut i: usize = 1;
    while i < coords.len()
        invariant
            1 <= i <= cs.len(),
            coords@ == cs,
            forall|j: int|
                0 <= j < i ==> min_lon <= (#[trigger] cs[j]).lon <= max_lon && min_lat
                    <= cs[j].lat <= max_lat,
            exists|j: int| 0 <= j < i && (#[trigger] cs[j]).lon == min_lon,
            exists|j: int| 0 <= j < i && (#[trigger] cs[j]).lat == min_lat,
            exists|j: int| 0 <= j < i && (#[trigger] cs[j]).lon == max_lon,
            exists|j: int| 0 <= j < i && (#[trigger] cs[j]).lat == max_lat,
        decreases cs.len() - i,
    {
        let c = coords[i];
        if c.lon < min_lon {
            min_lon = c.lon;
        }
        if c.lat < min_lat {
            min_lat = c.lat;
        }
        if c.lon > max_lon {
            max_lon = c.lon;
        }
        if c.lat > max_lat {
            max_lat = c.lat;
        }
        i += 1;
    }
    Some(Bbox { min_lon, min_lat, max_lon, max_lat })
}

} // verus!
