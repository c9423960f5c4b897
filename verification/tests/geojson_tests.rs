use geo_traits::to_geo::ToGeoGeometry;
use geo::Geometry;
use gpkg_render::geojson::{
    linestring_from_coords, multipolygon_from_polys, polygon_from_coords, preprocess_geojson,
};
use gpkg_render::geom::{compute_bbox, CoordFx, MultiPolygonFx, PolygonFx, RingFx};
use gpkg_render::gpkg::{bbox_from_corners, gpkg_wkb_payload, needs_reprojection, LayerInfo, WkbBody};
use gpkg_render::math::Bbox;
use gpkg_render::raster::{RenderConfig, Renderer};

fn nano(deg: f64) -> i64 {
    (deg * 1e9).round() as i64
}

fn coord(lon: f64, lat: f64) -> CoordFx {
    CoordFx { lon: nano(lon), lat: nano(lat) }
}

#[test]
fn test_preprocess_fixes_empty_type() {
    let fixed = preprocess_geojson(r#"{"type":""}"#);
    assert_eq!(fixed, r#"{"type":"MultiPolygon"}"#);
    let fixed = preprocess_geojson(r#"{"type": ""}"#);
    assert_eq!(fixed, r#"{"type": "MultiPolygon"}"#);
}

#[test]
fn test_preprocess_fixes_doubled_quotes() {
    let fixed = preprocess_geojson(r#"{""type"": ""Polygon""}"#);
    assert_eq!(fixed, r#"{"type": "Polygon"}"#);
}

#[test]
fn test_preprocess_order_keeps_empty_type() {
    // The empty-type fix must happen before doubled quotes collapse, or the
    // empty string would become one lone quote.
    let fixed = preprocess_geojson(r#"{"type":"","x":""y""}"#);
    assert_eq!(fixed, r#"{"type":"MultiPolygon","x":"y"}"#);
}

fn mp_from_geojson_value(value: &geojson::GeometryValue) -> Option<MultiPolygonFx> {
    let to_fixed = |ring: &Vec<geojson::Position>| -> Vec<CoordFx> {
        ring.iter()
            .filter(|p| p.len() >= 2)
            .map(|p| coord(p[0], p[1]))
            .collect()
    };
    match value {
        geojson::GeometryValue::Polygon { coordinates } => {
            let rings: Vec<Vec<CoordFx>> = coordinates.iter().map(|r| to_fixed(r)).collect();
            let poly = polygon_from_coords(rings)?;
            multipolygon_from_polys(vec![poly])
        }
        geojson::GeometryValue::MultiPolygon { coordinates } => {
            let mut polys = Vec::new();
            for rings in coordinates {
                let rings: Vec<Vec<CoordFx>> = rings.iter().map(|r| to_fixed(r)).collect();
                if let Some(p) = polygon_from_coords(rings) {
                    polys.push(p);
                }
            }
            multipolygon_from_polys(polys)
        }
        _ => None,
    }
}

#[test]
fn test_parse_empty_type_root_geometry() {
    let json = r#"{
        "type": "",
        "coordinates": [[[[2.0, 2.0], [8.0, 2.0], [8.0, 8.0], [2.0, 8.0], [2.0, 2.0]]]]
    }"#;

    let processed = preprocess_geojson(json);
    let parsed: geojson::GeoJson = processed.parse().unwrap();
    let mp = match parsed {
        geojson::GeoJson::Geometry(g) => mp_from_geojson_value(&g.value).unwrap(),
        _ => panic!("expected a bare geometry"),
    };
    assert_eq!(mp.polygons.len(), 1);

    // The recovered multipolygon rasterizes like any other.
    let mut renderer = Renderer::new(RenderConfig {
        bbox: Bbox::new(0, 0, nano(10.0), nano(10.0)),
        resolution: nano(1.0),
        fill: [255, 0, 0, 255],
        stroke: [0, 0, 0],
        stroke_width: 0,
    })
    .unwrap();
    renderer.render_multipolygon(&mp);
    assert_eq!(renderer.get_pixel(5, 5), (255, 0, 0, 255));
}

#[test]
fn test_polygon_assembly_drops_empty_rings() {
    assert!(linestring_from_coords(vec![]).is_none());
    let r = linestring_from_coords(vec![coord(1.0, 2.0)]).unwrap();
    assert_eq!(r.coords.len(), 1);

    assert!(polygon_from_coords(vec![]).is_none());
    assert!(polygon_from_coords(vec![vec![]]).is_none());
    let p = polygon_from_coords(vec![
        vec![coord(0.0, 0.0), coord(1.0, 0.0), coord(1.0, 1.0)],
        vec![],
        vec![coord(0.2, 0.2), coord(0.4, 0.2), coord(0.4, 0.4)],
    ])
    .unwrap();
    assert_eq!(p.exterior.coords.len(), 3);
    assert_eq!(p.interiors.len(), 1);

    assert!(multipolygon_from_polys(vec![]).is_none());
}

#[test]
fn test_compute_bbox_from_geometries() {
    let poly1 = PolygonFx {
        exterior: RingFx {
            coords: vec![
                coord(0.0, 0.0),
                coord(1.0, 0.0),
                coord(1.0, 1.0),
                coord(0.0, 1.0),
                coord(0.0, 0.0),
            ],
        },
        interiors: vec![],
    };
    let poly2 = PolygonFx {
        exterior: RingFx {
            coords: vec![
                coord(2.0, 2.0),
                coord(3.0, 2.0),
                coord(3.0, 3.0),
                coord(2.0, 3.0),
                coord(2.0, 2.0),
            ],
        },
        interiors: vec![],
    };

    let geometries = vec![
        MultiPolygonFx { polygons: vec![poly1] },
        MultiPolygonFx { polygons: vec![poly2] },
    ];

    let bbox = compute_bbox(&geometries).unwrap();
    assert_eq!(bbox.min_lon, 0);
    assert_eq!(bbox.min_lat, 0);
    assert_eq!(bbox.max_lon, nano(3.0));
    assert_eq!(bbox.max_lat, nano(3.0));

    assert!(compute_bbox(&vec![]).is_none());
}

fn iso_wkb_polygon() -> Vec<u8> {
    // Little-endian ISO WKB: one polygon, one ring, five points.
    let mut b = vec![0x01u8];
    b.extend_from_slice(&3u32.to_le_bytes());
    b.extend_from_slice(&1u32.to_le_bytes());
    b.extend_from_slice(&5u32.to_le_bytes());
    let pts = [(2.0f64, 2.0f64), (8.0, 2.0), (8.0, 8.0), (2.0, 8.0), (2.0, 2.0)];
    for (x, y) in pts {
        b.extend_from_slice(&x.to_le_bytes());
        b.extend_from_slice(&y.to_le_bytes());
    }
    b
}

#[test]
fn test_gpkg_wkb_envelope_indicator_one() {
    // GP magic, version 0, flags with envelope indicator 1 (32-byte
    // envelope), four srs bytes, the envelope, then ISO WKB.
    let mut payload = vec![0x47u8, 0x50, 0x00, 0x02];
    payload.extend_from_slice(&4326i32.to_le_bytes());
    payload.extend_from_slice(&[0u8; 32]);
    let wkb_bytes = iso_wkb_polygon();
    payload.extend_from_slice(&wkb_bytes);

    let body = gpkg_wkb_payload(&payload).unwrap();
    assert_eq!(body, WkbBody::Offset(40));

    let parsed = wkb::reader::read_wkb(&payload[40..]).unwrap();
    match parsed.to_geometry() {
        Geometry::Polygon(p) => {
            assert_eq!(p.exterior().0.len(), 5);
        }
        _ => panic!("expected one polygon"),
    }
}

#[test]
fn test_gpkg_wkb_bare_payload() {
    let bytes = iso_wkb_polygon();
    let body = gpkg_wkb_payload(&bytes).unwrap();
    assert_eq!(body, WkbBody::Bare);

    let parsed = wkb::reader::read_wkb(&bytes).unwrap();
    assert!(matches!(parsed.to_geometry(), Geometry::Polygon(_)));
}

#[test]
fn test_gpkg_wkb_rejects_bad_envelope() {
    // Envelope indicator 5 is undefined.
    let mut payload = vec![0x47u8, 0x50, 0x00, 0x0a];
    payload.extend_from_slice(&[0u8; 60]);
    assert!(gpkg_wkb_payload(&payload).is_none());

    // Too short for any header.
    assert!(gpkg_wkb_payload(&vec![0x47u8, 0x50]).is_none());
}

#[test]
fn test_reprojection_bookkeeping() {
    assert!(!needs_reprojection(4326));
    assert!(needs_reprojection(2154));

    let layer = LayerInfo {
        name: "test_layer".to_string(),
        geometry_column: "geom".to_string(),
        srs_id: 4326,
    };
    assert_eq!(layer.name, "test_layer");
    assert_eq!(layer.srs_id, 4326);

    let corners = vec![
        Some(coord(-4.5, 48.0)),
        Some(coord(-4.0, 48.0)),
        None,
        Some(coord(-4.0, 48.5)),
    ];
    let (min_lon, min_lat, max_lon, max_lat) = bbox_from_corners(&corners).unwrap();
    assert_eq!(min_lon, nano(-4.5));
    assert_eq!(min_lat, nano(48.0));
    assert_eq!(max_lon, nano(-4.0));
    assert_eq!(max_lat, nano(48.5));

    assert!(bbox_from_corners(&vec![None, None, None, None]).is_none());
}
