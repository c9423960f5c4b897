//! Window geometry and the world-to-screen mapping.
//!
//! Coordinates are nano-degrees held in `i64`: one unit is 1e-9 degree.
//! Screen positions are exact rationals whose denominator is the resolution
//! (also in nano-degrees per pixel), so no rounding happens before the
//! rasterizer asks for it.

use vstd::prelude::*;

verus! {

/// Nano-degree units in one degree.
pub const NANO_PER_DEGREE: i64 = 1_000_000_000;

/// Largest coordinate magnitude the model admits: 360 degrees.
pub const MAX_COORD_NANO: i64 = 360_000_000_000;

/// Magnitude cap under which the rational helpers are free of overflow.
pub const RAT_BOUND: i128 = 10_000_000_000_000_000_000_000_000_000_000_000_000;

/// Geographic window in WGS84, nano-degrees.
#[derive(Debug, Clone, Copy)]
pub struct Bbox {
    /// Minimum longitude.
    pub min_lon: i64,
    /// Minimum latitude.
    pub min_lat: i64,
    /// Maximum longitude.
    pub max_lon: i64,
    /// Maximum latitude.
    pub max_lat: i64,
}

impl Bbox {
    /// Both axes are properly ordered and within the coordinate range.
    pub open spec fn wf(self) -> bool {
        &&& -MAX_COORD_NANO <= self.min_lon < self.max_lon <= MAX_COORD_NANO
        &&& -MAX_COORD_NANO <= self.min_lat < self.max_lat <= MAX_COORD_NANO
    }

    /// Creates a bounding box; validity is checked by the parsers, not here.
    pub fn new(min_lon: i64, min_lat: i64, max_lon: i64, max_lat: i64) -> (r: Self)
        ensures
            r == (Bbox { min_lon, min_lat, max_lon, max_lat }),
    {
        Bbox { min_lon, min_lat, max_lon, max_lat }
    }

    /// Width of the window in nano-degrees.
    pub fn width(&self) -> (r: i64)
        requires
            self.wf(),
        ensures
            r == self.max_lon - self.min_lon,
    {
        self.max_lon - self.min_lon
    }

    /// Height of the window in nano-degrees.
    pub fn height(&self) -> (r: i64)
        requires
            self.wf(),
        ensures
            r == self.max_lat - self.min_lat,
    {
        self.max_lat - self.min_lat
    }
}

/// Ceiling of `a / b` for positive `a` and `b`.
pub open spec fn ceil_div(a: int, b: int) -> int {
    (a - 1) / b + 1
}

/// One image dimension: the ceiling of span over resolution, saturated the
/// way a cast to `u32` saturates.
pub open spec fn dim_of(span: int, res: int) -> int {
    if ceil_div(span, res) > 0xffff_ffff {
        0xffff_ffff
    } else {
        ceil_div(span, res)
    }
}

/// Image dimensions (width, height) for a window and a resolution.
pub fn calculate_dimensions(bbox: &Bbox, resolution: i64) -> (r: (u32, u32))
    requires
        bbox.wf(),
        resolution >= 1,
    ensures
        r.0 == dim_of(bbox.max_lon - bbox.min_lon, resolution as int),
        r.1 == dim_of(bbox.max_lat - bbox.min_lat, resolution as int),
{
    let w = (bbox.max_lon - bbox.min_lon - 1) / resolution + 1;
    let h = (bbox.max_lat - bbox.min_lat - 1) / resolution + 1;
    let wd: u32 = if w > 0xffff_ffff {
        0xffff_ffff
    } else {
        w as u32
    };
    let hd: u32 = if h > 0xffff_ffff {
        0xffff_ffff
    } else {
        h as u32
    };
    (wd, hd)
}

/// A positive span at a positive resolution asks for at least one pixel.
pub proof fn lemma_ceil_div_pos(a: int, b: int)
    requires
        a >= 1,
        b >= 1,
    ensures
        ceil_div(a, b) >= 1,
        dim_of(a, b) >= 1,
{
    vstd::arithmetic::div_mod::lemma_div_pos_is_pos(a - 1, b);
}

/// A screen position as an exact rational: `x = xn / res`, `y = yn / res`
/// in pixel units, `res` being the resolution the caller mapped with.
#[derive(Debug, Clone, Copy)]
pub struct ScreenPt {
    /// Numerator of the x position.
    pub xn: i64,
    /// Numerator of the y position.
    pub yn: i128,
}

/// Maps a WGS84 coordinate to the screen. The y axis flips because image
/// rows grow downward. The result is not clipped or rounded.
pub fn world_to_screen(lon: i64, lat: i64, bbox: &Bbox, resolution: i64, height: u32) -> (r:
    ScreenPt)
    requires
        bbox.wf(),
        resolution >= 1,
        -MAX_COORD_NANO <= lon <= MAX_COORD_NANO,
        -MAX_COORD_NANO <= lat <= MAX_COORD_NANO,
    ensures
        r.xn == lon - bbox.min_lon,
        r.yn == height as int * resolution - (lat - bbox.min_lat),
{
    let xn = lon - bbox.min_lon;
    proof {
        assert(0 <= height as int * resolution as int <= 0xffff_ffff * 0x7fff_ffff_ffff_ffff)
            by (nonlinear_arith)
            requires
                height <= 0xffff_ffffu32,
                1 <= resolution <= 0x7fff_ffff_ffff_ffffi64,
        ;
    }
    let yn = (height as i128) * (resolution as i128) - ((lat - bbox.min_lat) as i128);
    ScreenPt { xn, yn }
}

/// Rounding of `n / d` half away from zero, for positive `d`.
pub open spec fn round_rat(n: int, d: int) -> int {
    if n >= 0 {
        (2 * n + d) / (2 * d)
    } else {
        -((2 * (-n) + d) / (2 * d))
    }
}

/// Truncation of `n / d` toward zero, for positive `d`.
pub open spec fn trunc_rat(n: int, d: int) -> int {
    if n >= 0 {
        n / d
    } else {
        -((-n) / d)
    }
}

/// Exec form of `round_rat`.
pub fn round_div(n: i128, d: i128) -> (r: i128)
    requires
        0 < d <= RAT_BOUND,
        -RAT_BOUND <= n <= RAT_BOUND,
    ensures
        r == round_rat(n as int, d as int),
{
    let dm = d as u128;
    if n >= 0 {
        let m = n as u128;
        ((2 * m + dm) / (2 * dm)) as i128
    } else {
        let m = (-n) as u128;
        let q = ((2 * m + dm) / (2 * dm)) as i128;
        -q
    }
}

/// Exec form of `trunc_rat`.
pub fn trunc_div(n: i128, d: i128) -> (r: i128)
    requires
        0 < d <= RAT_BOUND,
        -RAT_BOUND <= n <= RAT_BOUND,
    ensures
        r == trunc_rat(n as int, d as int),
{
    if n >= 0 {
        let m = n as u128;
        (m / (d as u128)) as i128
    } else {
        let m = (-n) as u128;
        -((m / (d as u128)) as i128)
    }
}

} // verus!
