//! GeoPackage payload framing and the reprojection bookkeeping.
//!
//! The container hands each geometry as a GeoPackage blob: a `GP` header, an
//! optional envelope, then ISO WKB. The framing below finds where the WKB
//! starts; decoding the WKB itself, and the coordinate transforms, are the
//! container reader's and the projection library's work, done around the
//! library. The enclosure and pass-through rules of the reprojection step
//! are verified here over plain values.

use vstd::prelude::*;
use crate::geom::CoordFx;

verus! {

/// One polygon layer of a container: its table, geometry column and
/// spatial reference.
#[derive(Debug, Clone)]
pub struct LayerInfo {
    /// Table name.
    pub name: String,
    /// Name of the geometry column.
    pub geometry_column: String,
    /// Spatial reference system identifier.
    pub srs_id: i32,
}

/// Where the geometry bytes of a payload start.
#[derive(Debug, Clone, Copy, PartialEq, Eq, Structural)]
pub enum WkbBody {
    /// No `GP` header: the whole payload is bare ISO WKB.
    Bare,
    /// A GeoPackage header: ISO WKB starts at this offset.
    Offset(usize),
}

/// Envelope size in bytes for a GeoPackage envelope indicator; `None` for
/// the indicators the format does not define.
pub open spec fn envelope_size(e: int) -> Option<int> {
    if e == 0 {
        Some(0)
    } else if e == 1 {
        Some(32)
    } else if e == 2 {
        Some(48)
    } else if e == 3 {
        Some(48)
    } else if e == 4 {
        Some(64)
    } else {
        None
    }
}

/// Frames a GeoPackage geometry payload: too-short payloads and undefined
/// envelope indicators are rejected; a payload without the `GP` magic is
/// bare ISO WKB; otherwise the WKB starts after the 8-byte header and the
/// envelope.
pub fn gpkg_wkb_payload(data: &Vec<u8>) -> (r: Option<WkbBody>)
    ensures
        data@.len() < 8 ==> r is None,
        data@.len() >= 8 && (data@[0] != 0x47 || data@[1] != 0x50) ==> r == Some(WkbBody::Bare),
        data@.len() >= 8 && data@[0] == 0x47 && data@[1] == 0x50 ==> {
            let e = (data@[3] >> 1) & 7;
            match envelope_size(e as int) {
                Option::None => r is None,
                Option::Some(sz) => {
                    if data@.len() <= 8 + sz {
                        r is None
                    } else {
                        r == Some(WkbBody::Offset((8 + sz) as usize))
                    }
                },
            }
        },
{
    if data.len() < 8 {
        return None;
    }
    if data[0] != 0x47 || data[1] != 0x50 {
        return Some(WkbBody::Bare);
    }
    let flags = data[3];
    let indicator = (flags >> 1) & 7;
    let env_size: usize = if indicator == 0 {
        0
    } else if indicator == 1 {
        32
    } else if indicator == 2 {
        48
    } else if indicator == 3 {
        48
    } else if indicator == 4 {
        64
    } else {
        return None;
    };
    let start = 8 + env_size;
    if data.len() <= start {
        return None;
    }
    Some(WkbBody::Offset(start))
}

/// True when geometries with this spatial reference must be transformed;
/// WGS84 itself passes through unchanged.
pub fn needs_reprojection(srs_id: i32) -> (r: bool)
    ensures
        r <==> srs_id != 4326,
{
    srs_id != 4326
}

/// The tight WGS84 enclosure of a window's four transformed corners, or
/// `None` when every corner failed to transform. Corners that failed are
/// `None` and take no part in the enclosure.
pub fn bbox_from_corners(corners: &Vec<Option<CoordFx>>) -> (r: Option<(i64, i64, i64, i64)>)
    ensures
        r is Some <==> exists|i: int| 0 <= i < corners@.len() && corners@[i] is Some,
        r matches Some(bb) ==> {
            &&& forall|i: int|
                0 <= i < corners@.len() ==> (#[trigger] corners@[i] matches Some(c) ==> bb.0
                    <= c.lon <= bb.2 && bb.1 <= c.lat <= bb.3)
            &&& exists|i: int|
                0 <= i < corners@.len() && (#[trigger] corners@[i] matches Some(c) && c.lon
                    == bb.0)
            &&& exists|i: int|
                0 <= i < corners@.len() && (#[trigger] corners@[i] matches Some(c) && c.lat
                    == bb.1)
            &&& exists|i: int|
                0 <= i < corners@.len() && (#[trigger] corners@[i] matches Some(c) && c.lon
                    == bb.2)
            &&& exists|i: int|
                0 <= i < corners@.len() && (#[trigger] corners@[i] matches Some(c) && c.lat
                    == bb.3)
        },
{
    let mut found = false;
    let mut min_lon: i64 = 0;
    let mut min_lat: i64 = 0;
    let mut max_lon: i64 = 0;
    let mut max_lat: i64 = 0;
    let mut i: usize = 0;
    while i < corners.len()
        invariant
            0 <= i <= corners@.len(),
            found <==> exists|j: int| 0 <= j < i && corners@[j] is Some,
            found ==> {
                &&& forall|j: int|
                    0 <= j < i ==> (#[trigger] corners@[j] matches Some(c) ==> min_lon <= c.lon
                        <= max_lon && min_lat <= c.lat <= max_lat)
                &&& exists|j: int|
                    0 <= j < i && (#[trigger] corners@[j] matches Some(c) && c.lon == min_lon)
                &&& exists|j: int|
                    0 <= j < i && (#[trigger] corners@[j] matches Some(c) && c.lat == min_lat)
                &&& exists|j: int|
                    0 <= j < i && (#[trigger] corners@[j] matches Some(c) && c.lon == max_lon)
                &&& exists|j: int|
                    0 <= j < i && (#[trigger] corners@[j] matches Some(c) && c.lat == max_lat)
            },
        decreases corners@.len() - i,
    {
        match &corners[i] {
            Option::Some(c) => {
                if !found {
                    found = true;
                    min_lon = c.lon;
                    min_lat = c.lat;
                    max_lon = c.lon;
                    max_lat = c.lat;
                } else {
                    if c.lon < min_lon {
                        min_lon = c.lon;
                    }
                    if c.lat < min_lat {
                        min_lat = c.lat;
                    }
                    if c.lon > max_lon {
                        max_lon = c.lon;
                    }
                    if c.lat > max_lat {
                        max_lat = c.lat;
                    }
                }
            },
            Option::None => {},
        }
        i += 1;
    }
    if found {
        Some((min_lon, min_lat, max_lon, max_lat))
    } else {
        None
    }
}

/// Whether some vertex of a transformed ring failed.
pub open spec fn ring_has_failure(ring: Seq<Option<CoordFx>>) -> bool {
    exists|i: int| 0 <= i < ring.len() && ring[i] is None
}

/// The vertices of a fully transformed ring.
pub open spec fn ring_values(ring: Seq<Option<CoordFx>>) -> Seq<CoordFx> {
    ring.map_values(|c: Option<CoordFx>| c->Some_0)
}

/// Rebuilds one transformed ring, or `None` when any vertex failed to
/// transform: a geometry with a failed vertex is dropped whole.
pub fn assemble_ring(ring: &Vec<Option<CoordFx>>) -> (r: Option<crate::geom::RingFx>)
    ensures
        r is Some <==> !ring_has_failure(ring@),
        r matches Some(out) ==> out.coords@ == ring_values(ring@),
{
    let mut coords: Vec<CoordFx> = Vec::new();
    let mut i: usize = 0;
    while i < ring.len()
        invariant
            0 <= i <= ring@.len(),
            forall|j: int| 0 <= j < i ==> !((#[trigger] ring@[j]) is None),
            coords@ =~= ring_values(ring@.take(i as int)),
        decreases ring@.len() - i,
    {
        match &ring[i] {
            Option::Some(c) => {
                coords.push(*c);
                proof {
                    assert(coords@ =~= ring_values(ring@.take(i + 1)));
                }
            },
            Option::None => {
                return None;
            },
        }
        i += 1;
    }
    proof {
        assert(ring@.take(ring@.len() as int) =~= ring@);
    }
    Some(crate::geom::RingFx { coords })
}

} // verus!
