use gpkg_render::color::blend;
use gpkg_render::edge::{Edge, ScanlineTable};
use gpkg_render::errors::GpkgError;
use gpkg_render::geom::{CoordFx, MultiPolygonFx, PolygonFx, RingFx};
use gpkg_render::math::{calculate_dimensions, world_to_screen, Bbox, ScreenPt};
use gpkg_render::raster::{RenderConfig, Renderer};

fn nano(deg: f64) -> i64 {
    (deg * 1e9).round() as i64
}

fn coord(lon: f64, lat: f64) -> CoordFx {
    CoordFx { lon: nano(lon), lat: nano(lat) }
}

fn ring(pts: &[(f64, f64)]) -> RingFx {
    RingFx { coords: pts.iter().map(|&(x, y)| coord(x, y)).collect() }
}

fn square_mp() -> MultiPolygonFx {
    let polygon = PolygonFx {
        exterior: ring(&[(2.0, 2.0), (8.0, 2.0), (8.0, 8.0), (2.0, 8.0), (2.0, 2.0)]),
        interiors: vec![],
    };
    MultiPolygonFx { polygons: vec![polygon] }
}

#[test]
fn test_bbox_dimensions() {
    let bbox = Bbox::new(nano(-4.5), nano(48.0), nano(-4.0), nano(48.5));
    assert!((bbox.width() as f64 / 1e9 - 0.5).abs() < 1e-10);
    assert!((bbox.height() as f64 / 1e9 - 0.5).abs() < 1e-10);
}

#[test]
fn test_calculate_dimensions() {
    let bbox = Bbox::new(nano(-4.5), nano(48.0), nano(-4.0), nano(48.5));
    let resolution = nano(0.001);
    let (width, height) = calculate_dimensions(&bbox, resolution);
    assert_eq!(width, 500);
    assert_eq!(height, 500);
}

#[test]
fn test_calculate_dimensions_rounds_up() {
    let bbox = Bbox::new(0, 0, nano(1.0), nano(1.0));
    let resolution = nano(0.3); // 1.0 / 0.3 = 3.333...
    let (width, height) = calculate_dimensions(&bbox, resolution);
    assert_eq!(width, 4);
    assert_eq!(height, 4);
}

#[test]
fn test_calculate_dimensions_minimum() {
    // A resolution coarser than the window still yields one pixel.
    let bbox = Bbox::new(0, 0, nano(1.0), nano(1.0));
    let (width, height) = calculate_dimensions(&bbox, nano(10.0));
    assert_eq!(width, 1);
    assert_eq!(height, 1);
}

fn screen_xy(p: ScreenPt, resolution: i64) -> (f64, f64) {
    (p.xn as f64 / resolution as f64, p.yn as f64 / resolution as f64)
}

#[test]
fn test_world_to_screen_origin() {
    let bbox = Bbox::new(0, 0, nano(1.0), nano(1.0));
    let resolution = nano(0.1);
    let (_, height) = calculate_dimensions(&bbox, resolution);

    // Bottom-left corner of the window maps to the image's bottom-left.
    let (x, y) = screen_xy(world_to_screen(0, 0, &bbox, resolution, height), resolution);
    assert!((x - 0.0).abs() < 1e-10);
    assert!((y - 10.0).abs() < 1e-10);
}

#[test]
fn test_world_to_screen_top_right() {
    let bbox = Bbox::new(0, 0, nano(1.0), nano(1.0));
    let resolution = nano(0.1);
    let (width, height) = calculate_dimensions(&bbox, resolution);

    let (x, y) = screen_xy(
        world_to_screen(nano(1.0), nano(1.0), &bbox, resolution, height),
        resolution,
    );
    assert!((x - width as f64).abs() < 1e-10);
    assert!((y - 0.0).abs() < 1e-10);
}

#[test]
fn test_world_to_screen_center() {
    let bbox = Bbox::new(0, 0, nano(1.0), nano(1.0));
    let resolution = nano(0.1);
    let (_, height) = calculate_dimensions(&bbox, resolution);

    let (x, y) = screen_xy(
        world_to_screen(nano(0.5), nano(0.5), &bbox, resolution, height),
        resolution,
    );
    assert!((x - 5.0).abs() < 1e-10);
    assert!((y - 5.0).abs() < 1e-10);
}

#[test]
fn test_edge_creation() {
    let p1 = ScreenPt { xn: 10, yn: 10 };
    let p2 = ScreenPt { xn: 20, yn: 20 };
    let edge = Edge::new(p1, p2, 1).unwrap();
    assert_eq!(edge.y_max, 20);
    assert_eq!(edge.x_current / edge.den, 10);
    assert_eq!(edge.inv_slope / edge.den, 1);

    let horizontal = Edge::new(ScreenPt { xn: 10, yn: 10 }, ScreenPt { xn: 20, yn: 10 }, 1);
    assert!(horizontal.is_none());
}

#[test]
fn test_scanline_table_extraction() {
    let bbox = Bbox::new(0, 0, nano(10.0), nano(10.0));
    let resolution = nano(1.0);
    let img_height = 10;

    let polygon = PolygonFx {
        exterior: ring(&[(2.0, 2.0), (8.0, 2.0), (8.0, 8.0), (2.0, 8.0), (2.0, 2.0)]),
        interiors: vec![],
    };

    let mut st = ScanlineTable::new(0, img_height);
    st.extract_from_polygon(&polygon, &bbox, resolution, img_height);

    // In screen space the square's verticals run from row 2 to row 8, one
    // at column 8 (drawn first) and one at column 2.
    assert_eq!(st.entries[2].len(), 2);
    assert_eq!(st.entries[2][0].x_current / st.entries[2][0].den, 8);
    assert_eq!(st.entries[2][1].x_current / st.entries[2][1].den, 2);
}

fn config_10x10(fill: [u8; 4], stroke_width: u32) -> RenderConfig {
    RenderConfig {
        bbox: Bbox::new(0, 0, nano(10.0), nano(10.0)),
        resolution: nano(1.0),
        fill,
        stroke: [0, 0, 0],
        stroke_width,
    }
}

#[test]
fn test_renderer_creation() {
    let config = RenderConfig {
        bbox: Bbox::new(0, 0, nano(1.0), nano(1.0)),
        resolution: nano(0.01),
        fill: [255, 0, 0, 128],
        stroke: [255, 0, 0],
        stroke_width: 1,
    };
    let renderer = Renderer::new(config).unwrap();
    assert_eq!(renderer.dimensions(), (100, 100));
}

#[test]
fn test_renderer_too_large() {
    let config = RenderConfig {
        bbox: Bbox::new(0, 0, nano(100.0), nano(100.0)),
        resolution: nano(0.0001), // would make a million pixels a side
        fill: [255, 0, 0, 128],
        stroke: [255, 0, 0],
        stroke_width: 1,
    };
    let result = Renderer::new(config);
    assert!(matches!(result, Err(GpkgError::ImageTooLarge { .. })));
    match result {
        Err(GpkgError::ImageTooLarge { width, height, max }) => {
            assert_eq!(width, 1_000_000);
            assert_eq!(height, 1_000_000);
            assert_eq!(max, 20000);
        }
        _ => unreachable!(),
    }
}

#[test]
fn test_render_simple_polygon() {
    let mut renderer = Renderer::new(config_10x10([255, 0, 0, 255], 0)).unwrap();
    renderer.render_multipolygon(&square_mp());

    let center = renderer.get_pixel(5, 5);
    assert_eq!(center, (255, 0, 0, 255));

    let corner = renderer.get_pixel(0, 0);
    assert_eq!(corner, (0, 0, 0, 0));
}

#[test]
fn test_render_hole_is_transparent() {
    let polygon = PolygonFx {
        exterior: ring(&[(2.0, 2.0), (8.0, 2.0), (8.0, 8.0), (2.0, 8.0), (2.0, 2.0)]),
        interiors: vec![ring(&[(4.0, 4.0), (6.0, 4.0), (6.0, 6.0), (4.0, 6.0), (4.0, 4.0)])],
    };
    let mp = MultiPolygonFx { polygons: vec![polygon] };

    let mut renderer = Renderer::new(config_10x10([255, 0, 0, 255], 0)).unwrap();
    renderer.render_multipolygon(&mp);

    assert_eq!(renderer.get_pixel(5, 5), (0, 0, 0, 0));
    assert_eq!(renderer.get_pixel(3, 3), (255, 0, 0, 255));
}

#[test]
fn test_render_alpha_compositing() {
    let mut renderer = Renderer::new(config_10x10([255, 0, 0, 128], 0)).unwrap();
    let mp = square_mp();
    renderer.render_multipolygon(&mp);
    renderer.render_multipolygon(&mp);

    // Two coats of half-transparent red: alpha (128*255 + 128*127)/255
    // truncated, red exact.
    let px = renderer.get_pixel(5, 5);
    assert_eq!(px.0, 255);
    assert_eq!(px.1, 0);
    assert_eq!(px.2, 0);
    assert_eq!(px.3, 191);
}

#[test]
fn test_band_decomposition_is_invisible() {
    let mp = square_mp();
    let mut one = Renderer::new(config_10x10([255, 0, 0, 128], 0)).unwrap();
    one.render_multipolygon_banded(&mp, 1);
    let mut many = Renderer::new(config_10x10([255, 0, 0, 128], 0)).unwrap();
    many.render_multipolygon_banded(&mp, 7);
    assert_eq!(one.image, many.image);
}

#[test]
fn test_blend_transparent_source_is_identity() {
    let dst = (10, 20, 30, 40);
    assert_eq!(blend(dst, (200, 100, 50, 0)), dst);
    let dst2 = (0, 0, 0, 0);
    assert_eq!(blend(dst2, (200, 100, 50, 0)), dst2);
}

#[test]
fn test_blend_opaque_source_replaces() {
    let src = (12, 34, 56, 255);
    assert_eq!(blend((10, 20, 30, 40), src), src);
    assert_eq!(blend((0, 0, 0, 0), src), src);
}

#[test]
fn test_stroke_draws_boundary() {
    let mut renderer = Renderer::new(RenderConfig {
        bbox: Bbox::new(0, 0, nano(10.0), nano(10.0)),
        resolution: nano(1.0),
        fill: [0, 0, 255, 255],
        stroke: [0, 255, 0],
        stroke_width: 1,
    })
    .unwrap();
    renderer.render_multipolygon(&square_mp());

    // A boundary vertex carries the opaque stroke color over the fill.
    assert_eq!(renderer.get_pixel(2, 8), (0, 255, 0, 255));
    // The middle stays pure fill.
    assert_eq!(renderer.get_pixel(5, 5), (0, 0, 255, 255));
}
