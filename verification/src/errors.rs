//! Error kinds raised by the rendering pipeline.

use vstd::prelude::*;
use vstd::string::StringExecFns;

verus! {

/// Everything that can go wrong while configuring or running a render.
///
/// Container and I/O failures of the surrounding program are wrapped outside
/// the library; these are the kinds the core itself raises.
#[derive(Debug, Clone)]
pub enum GpkgError {
    /// The input file does not exist.
    FileNotFound(String),
    /// The container holds no polygon layer.
    NoPolygonLayers,
    /// The requested layer is absent; the second field lists the layers found.
    LayerNotFound(String, String),
    /// The bounding box cannot be parsed or is inverted.
    InvalidBbox(String),
    /// A color string is not the required run of hex digits.
    InvalidColor(String),
    /// The resolution is not positive.
    InvalidResolution(String),
    /// The scale is not positive.
    InvalidScale(String),
    /// Neither a resolution nor a scale was supplied.
    MissingResolutionOrScale,
    /// Two options that exclude each other were both supplied.
    MutuallyExclusiveOptions(String, String),
    /// An option was used with an input format that does not take it.
    InvalidFormatOption(String),
    /// The window and resolution ask for an image beyond the size cap.
    ImageTooLarge { width: u32, height: u32, max: u32 },
    /// The GeoJSON document could not be parsed.
    GeojsonParseError(String),
    /// The GeoJSON document holds no polygon geometry.
    EmptyGeojson,
    /// The container's database reported a failure.
    Database(String),
    /// A file could not be read or written.
    Io(String),
    /// The image could not be encoded.
    Image(String),
}

impl GpkgError {
    /// The display text of the error.
    pub fn message(&self) -> (r: String)
        ensures
            self matches GpkgError::FileNotFound(p) ==> r@ == "File not found: "@ + p@,
            self is NoPolygonLayers ==> r@ == "No polygon layers found in the GeoPackage"@,
            self matches GpkgError::LayerNotFound(n, a) ==> r@ == "Layer '"@ + n@
                + "' not found. Available layers: "@ + a@,
            self matches GpkgError::InvalidBbox(d) ==> r@ == "Invalid bounding box format: "@ + d@,
            self matches GpkgError::InvalidColor(d) ==> r@ == "Invalid color format: "@ + d@,
            self matches GpkgError::InvalidResolution(d) ==> r@
                == "Resolution must be positive, got: "@ + d@,
            self matches GpkgError::InvalidScale(d) ==> r@ == "Scale must be positive, got: "@
                + d@,
            self is MissingResolutionOrScale ==> r@
                == "Either --resolution or --scale must be provided"@,
            self matches GpkgError::MutuallyExclusiveOptions(a, b) ==> r@ == "Options --"@ + a@
                + " and --"@ + b@ + " are mutually exclusive"@,
            self matches GpkgError::InvalidFormatOption(d) ==> r@ == d@,
            self matches GpkgError::GeojsonParseError(d) ==> r@ == "GeoJSON parse error: "@ + d@,
            self is EmptyGeojson ==> r@ == "No polygon geometries found in the GeoJSON file"@,
            self matches GpkgError::ImageTooLarge { width, height, max } ==> r@
                == "Image dimensions too large: "@ + crate::text::dec_digits(width as int) + "x"@
                + crate::text::dec_digits(height as int) + " pixels (max: "@
                + crate::text::dec_digits(max as int) + ")"@,
            self matches GpkgError::Database(d) ==> r@ == "Database error: "@ + d@,
            self matches GpkgError::Io(d) ==> r@ == "IO error: "@ + d@,
            self matches GpkgError::Image(d) ==> r@ == "Image error: "@ + d@,
    {
        match self {
            GpkgError::FileNotFound(p) => "File not found: ".to_owned().concat(p.as_str()),
            GpkgError::NoPolygonLayers => "No polygon layers found in the GeoPackage".to_owned(),
            GpkgError::LayerNotFound(n, a) => "Layer '".to_owned().concat(n.as_str()).concat(
                "' not found. Available layers: ",
            ).concat(a.as_str()),
            GpkgError::InvalidBbox(d) => "Invalid bounding box format: ".to_owned().concat(
                d.as_str(),
            ),
            GpkgError::InvalidColor(d) => "Invalid color format: ".to_owned().concat(d.as_str()),
            GpkgError::InvalidResolution(d) => "Resolution must be positive, got: ".to_owned()
                .concat(d.as_str()),
            GpkgError::InvalidScale(d) => "Scale must be positive, got: ".to_owned().concat(
                d.as_str(),
            ),
            GpkgError::MissingResolutionOrScale => {
                "Either --resolution or --scale must be provided".to_owned()
            },
            GpkgError::MutuallyExclusiveOptions(a, b) => "Options --".to_owned().concat(
                a.as_str(),
            ).concat(" and --").concat(b.as_str()).concat(" are mutually exclusive"),
            GpkgError::InvalidFormatOption(d) => d.clone(),
            GpkgError::ImageTooLarge { width, height, max } => {
                "Image dimensions too large: ".to_owned().concat(
                    crate::text::u64_to_string(*width as u64).as_str(),
                ).concat("x").concat(crate::text::u64_to_string(*height as u64).as_str()).concat(
                    " pixels (max: ",
                ).concat(crate::text::u64_to_string(*max as u64).as_str()).concat(")")
            },
            GpkgError::GeojsonParseError(d) => "GeoJSON parse error: ".to_owned().concat(
                d.as_str(),
            ),
            GpkgError::EmptyGeojson => {
                "No polygon geometries found in the GeoJSON file".to_owned()
            },
            GpkgError::Database(d) => "Database error: ".to_owned().concat(d.as_str()),
            GpkgError::Io(d) => "IO error: ".to_owned().concat(d.as_str()),
            GpkgError::Image(d) => "Image error: ".to_owned().concat(d.as_str()),
        }
    }
}

} // verus!
