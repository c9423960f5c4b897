use gpkg_render::cli::{format_bbox, parse_bbox, Args, Format};
use gpkg_render::color::{parse_rgb, parse_rgba};
use gpkg_render::errors::GpkgError;

fn nano(deg: f64) -> i64 {
    (deg * 1e9).round() as i64
}

fn deg(nano: i64) -> f64 {
    nano as f64 / 1e9
}

#[test]
fn test_parse_bbox_valid() {
    let bbox = parse_bbox("-4.5,48.0,-4.0,48.5").unwrap();
    assert!((deg(bbox.min_lon) - (-4.5)).abs() < 1e-10);
    assert!((deg(bbox.min_lat) - 48.0).abs() < 1e-10);
    assert!((deg(bbox.max_lon) - (-4.0)).abs() < 1e-10);
    assert!((deg(bbox.max_lat) - 48.5).abs() < 1e-10);
}

#[test]
fn test_parse_bbox_with_spaces() {
    let bbox = parse_bbox(" -4.5 , 48.0 , -4.0 , 48.5 ").unwrap();
    assert!((deg(bbox.min_lon) - (-4.5)).abs() < 1e-10);
}

#[test]
fn test_parse_bbox_invalid_count() {
    let err = parse_bbox("-4.5,48.0,-4.0").unwrap_err();
    assert!(err.message().contains("expected 4"));
}

#[test]
fn test_parse_bbox_invalid_number() {
    let err = parse_bbox("-4.5,abc,-4.0,48.5").unwrap_err();
    assert!(err.message().contains("invalid number"));
}

#[test]
fn test_parse_bbox_inverted() {
    let err = parse_bbox("-4.0,48.0,-4.5,48.5").unwrap_err();
    assert!(err.message().contains("min_lon"));
    assert!(err.message().contains("must be less than"));

    let err = parse_bbox("-4.5,48.5,-4.0,48.0").unwrap_err();
    assert!(err.message().contains("min_lat"));
    assert!(err.message().contains("must be less than"));

    let err = parse_bbox("-4.5,48.0,-4.5,48.5").unwrap_err();
    assert!(err.message().contains("min_lon"));
}

#[test]
fn test_bbox_roundtrip() {
    let b = parse_bbox("-4.5,48.0,-4.0,48.5").unwrap();
    let text = format_bbox(&b);
    assert_eq!(text, "-4.5,48,-4,48.5");
    let b2 = parse_bbox(&text).unwrap();
    assert_eq!(b.min_lon, b2.min_lon);
    assert_eq!(b.min_lat, b2.min_lat);
    assert_eq!(b.max_lon, b2.max_lon);
    assert_eq!(b.max_lat, b2.max_lat);
}

#[test]
fn test_parse_rgba_valid() {
    let color = parse_rgba("FF000080").unwrap();
    assert_eq!(color, [255, 0, 0, 128]);
}

#[test]
fn test_parse_rgba_invalid_length() {
    let err = parse_rgba("FF0000").unwrap_err();
    assert!(err.message().contains("8 hex digits"));
    assert!(err.message().contains("got 6"));
}

#[test]
fn test_parse_rgba_invalid_hex() {
    let err = parse_rgba("GGGGGGGG").unwrap_err();
    assert!(err.message().contains("Invalid color"));
}

#[test]
fn test_parse_rgb_valid() {
    let color = parse_rgb("00FF00").unwrap();
    assert_eq!(color, [0, 255, 0]);
}

#[test]
fn test_parse_rgb_invalid_length() {
    let err = parse_rgb("FF").unwrap_err();
    assert!(err.message().contains("6 hex digits"));
    assert!(err.message().contains("got 2"));
}

fn create_test_args(resolution: Option<f64>, scale: Option<f64>, bbox: Option<&str>) -> Args {
    Args {
        input: "test.gpkg".to_string(),
        output_dir: ".".to_string(),
        bbox: bbox.map(|s| s.to_string()),
        resolution: resolution.map(|r| format!("{}", r)),
        scale: scale.map(|s| format!("{}", s)),
        fill: "FF000080".to_string(),
        stroke: "FF0000".to_string(),
        stroke_width: 1,
        layer: None,
        format: Format::Gpkg,
        output_name: None,
    }
}

#[test]
fn test_validate_resolution_only() {
    let args = create_test_args(Some(0.001), None, Some("-4.5,48.0,-4.0,48.5"));
    let config = args.validate().unwrap();
    assert!(config.resolution.is_some());
    assert!(config.scale.is_none());
    assert!((config.resolution.unwrap() as f64 / 1e9 - 0.001).abs() < 1e-10);
    assert_eq!(config.fill, [255, 0, 0, 128]);
    assert_eq!(config.stroke, [255, 0, 0]);
    let bb = config.bbox.unwrap();
    let expected = parse_bbox("-4.5,48.0,-4.0,48.5").unwrap();
    assert_eq!(bb.min_lon, expected.min_lon);
    assert_eq!(bb.min_lat, expected.min_lat);
    assert_eq!(bb.max_lon, expected.max_lon);
    assert_eq!(bb.max_lat, expected.max_lat);
}

#[test]
fn test_validate_scale_only() {
    let args = create_test_args(None, Some(10.0), Some("-4.5,48.0,-4.0,48.5"));
    let config = args.validate().unwrap();
    assert!(config.resolution.is_none());
    assert!(config.scale.is_some());
    assert!((config.scale.unwrap() as f64 / 1e9 - 10.0).abs() < 1e-10);
}

#[test]
fn test_validate_neither_resolution_nor_scale() {
    let args = create_test_args(None, None, Some("-4.5,48.0,-4.0,48.5"));
    let err = args.validate().unwrap_err();
    assert!(err.message().contains("resolution"));
    assert!(err.message().contains("scale"));
}

#[test]
fn test_validate_both_resolution_and_scale() {
    let args = create_test_args(Some(0.001), Some(10.0), Some("-4.5,48.0,-4.0,48.5"));
    let err = args.validate().unwrap_err();
    assert!(err.message().contains("mutually exclusive"));
}

#[test]
fn test_validate_optional_bbox() {
    let args = create_test_args(Some(0.001), None, None);
    let config = args.validate().unwrap();
    assert!(config.bbox.is_none());
}

#[test]
fn test_validate_invalid_scale() {
    let args = create_test_args(None, Some(-10.0), Some("-4.5,48.0,-4.0,48.5"));
    let err = args.validate().unwrap_err();
    assert!(err.message().contains("Scale must be positive"));
}

#[test]
fn test_validate_invalid_resolution() {
    let args = create_test_args(Some(-0.001), None, Some("-4.5,48.0,-4.0,48.5"));
    let err = args.validate().unwrap_err();
    assert!(err.message().contains("Resolution must be positive"));
}

#[test]
fn test_scale_to_resolution_conversion() {
    // At the equator, cos(0) = 1, so resolution = scale / 111319.0.
    let scale = 10.0;
    let center_lat: f64 = 0.0;
    let resolution = scale / (111319.0 * center_lat.to_radians().cos());
    assert!((resolution - 0.0000898315).abs() < 0.0000001);

    let center_lat: f64 = 48.0;
    let resolution = scale / (111319.0 * center_lat.to_radians().cos());
    assert!((resolution - 0.0001342).abs() < 0.0001);
}

#[test]
fn test_validate_geojson_with_layer_option() {
    let mut args = create_test_args(Some(0.001), None, Some("-4.5,48.0,-4.0,48.5"));
    args.input = "test.geojson".to_string();
    args.layer = Some("test_layer".to_string());
    args.format = Format::Geojson;
    let err = args.validate().unwrap_err();
    assert!(err.message().contains("--layer cannot be used with geojson format"));
}

#[test]
fn test_validate_geojson_default_output_name() {
    let mut args = create_test_args(Some(0.001), None, Some("-4.5,48.0,-4.0,48.5"));
    args.input = "test.geojson".to_string();
    args.format = Format::Geojson;
    let config = args.validate().unwrap();
    assert_eq!(config.output_name, Some("test".to_string()));
}

#[test]
fn test_validate_geojson_custom_output_name() {
    let mut args = create_test_args(Some(0.001), None, Some("-4.5,48.0,-4.0,48.5"));
    args.input = "test.geojson".to_string();
    args.format = Format::Geojson;
    args.output_name = Some("custom".to_string());
    let config = args.validate().unwrap();
    assert_eq!(config.output_name, Some("custom".to_string()));
}

#[test]
fn test_validate_gpkg_with_output_name_option() {
    let mut args = create_test_args(Some(0.001), None, Some("-4.5,48.0,-4.0,48.5"));
    args.output_name = Some("custom".to_string());
    let err = args.validate().unwrap_err();
    assert!(err.message().contains("--output-name can only be used with geojson format"));
}

#[test]
fn test_collaborator_error_display() {
    assert_eq!(
        GpkgError::Database("no such table".to_string()).message(),
        "Database error: no such table"
    );
    assert_eq!(
        GpkgError::Io("permission denied".to_string()).message(),
        "IO error: permission denied"
    );
    assert_eq!(
        GpkgError::Image("bad dimensions".to_string()).message(),
        "Image error: bad dimensions"
    );
    assert_eq!(
        GpkgError::ImageTooLarge { width: 1_000_000, height: 1_000_000, max: 20000 }.message(),
        "Image dimensions too large: 1000000x1000000 pixels (max: 20000)"
    );
}

#[test]
fn test_error_display() {
    let err = GpkgError::FileNotFound("test.gpkg".to_string());
    assert_eq!(err.message(), "File not found: test.gpkg");
}

#[test]
fn test_layer_not_found_display() {
    let err = GpkgError::LayerNotFound("foo".to_string(), "bar, baz".to_string());
    assert_eq!(
        err.message(),
        "Layer 'foo' not found. Available layers: bar, baz"
    );
}

#[test]
fn test_bbox_range_rejected() {
    let err = parse_bbox("-4.5,48.0,99999.0,48.5").unwrap_err();
    assert!(err.message().contains("out of range"));
    let _ = nano(1.0);
}
