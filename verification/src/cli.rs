//! Argument validation and the window parser.

use vstd::prelude::*;
use vstd::string::StringExecFns;
use crate::errors::GpkgError;
use crate::math::{Bbox, MAX_COORD_NANO};
use crate::numtext::{fixed_val, fmt_fixed, parse_fixed, format_fixed};
use crate::text::{str_to_chars, string_from_chars};

verus! {

/// Input file format.
#[derive(Debug, Clone, Copy, PartialEq, Eq, Structural)]
pub enum Format {
    /// A GeoPackage container.
    Gpkg,
    /// A GeoJSON document.
    Geojson,
}

/// True for the blanks that are trimmed around a number.
pub open spec fn is_blank(c: char) -> bool {
    c == ' ' || c == '\t'
}

/// The text with leading blanks removed.
pub open spec fn trim_front(s: Seq<char>) -> Seq<char>
    decreases s.len(),
{
    if s.len() > 0 && is_blank(s[0]) {
        trim_front(s.drop_first())
    } else {
        s
    }
}

/// The text with trailing blanks removed.
pub open spec fn trim_back(s: Seq<char>) -> Seq<char>
    decreases s.len(),
{
    if s.len() > 0 && is_blank(s.last()) {
        trim_back(s.drop_last())
    } else {
        s
    }
}

/// The text with blanks removed on both sides.
pub open spec fn trim(s: Seq<char>) -> Seq<char> {
    trim_back(trim_front(s))
}

/// The comma-separated fields of the text, in order; one more field than
/// there are commas.
pub open spec fn split_commas(s: Seq<char>) -> Seq<Seq<char>>
    decreases s.len(),
{
    if s.len() == 0 {
        seq![s]
    } else if s[0] == ',' {
        seq![Seq::<char>::empty()] + split_commas(s.drop_first())
    } else {
        let rest = split_commas(s.drop_first());
        rest.update(0, seq![s[0]] + rest[0])
    }
}

/// A split always yields at least one field.
pub proof fn lemma_split_len(s: Seq<char>)
    ensures
        split_commas(s).len() >= 1,
    decreases s.len(),
{
    if s.len() > 0 {
        lemma_split_len(s.drop_first());
    }
}

/// A text without commas is one whole field.
pub proof fn lemma_split_no_comma(s: Seq<char>)
    requires
        forall|i: int| 0 <= i < s.len() ==> #[trigger] s[i] != ',',
    ensures
        split_commas(s) == seq![s],
    decreases s.len(),
{
    if s.len() == 0 {
    } else {
        assert(forall|j: int| 0 <= j < s.len() - 1 ==> #[trigger] s.drop_first()[j] == s[j + 1]);
        lemma_split_no_comma(s.drop_first());
        let rest = split_commas(s.drop_first());
        assert(rest == seq![s.drop_first()]);
        assert(rest.update(0, seq![s[0]] + rest[0]) =~= seq![s]) by {
            assert(seq![s[0]] + s.drop_first() =~= s);
        }
    }
}

/// A text whose first comma sits at `p` splits into the field before it and
/// the split of what follows.
pub proof fn lemma_split_at_comma(s: Seq<char>, p: int)
    requires
        0 <= p < s.len(),
        forall|i: int| 0 <= i < p ==> #[trigger] s[i] != ',',
        s[p] == ',',
    ensures
        split_commas(s) == seq![s.subrange(0, p)] + split_commas(s.subrange(p + 1, s.len() as int)),
    decreases p,
{
    if p == 0 {
        assert(s.subrange(0, 0) =~= Seq::<char>::empty());
        assert(s.drop_first() =~= s.subrange(1, s.len() as int));
    } else {
        assert(s[0] != ',');
        assert(forall|j: int| 0 <= j < s.len() - 1 ==> #[trigger] s.drop_first()[j] == s[j + 1]);
        lemma_split_at_comma(s.drop_first(), p - 1);
        let d = s.drop_first();
        let rest = split_commas(d);
        assert(rest == seq![d.subrange(0, p - 1)] + split_commas(d.subrange(p, d.len() as int)));
        lemma_split_len(d.subrange(p, d.len() as int));
        assert(rest[0] == d.subrange(0, p - 1));
        assert(seq![s[0]] + d.subrange(0, p - 1) =~= s.subrange(0, p));
        assert(d.subrange(p, d.len() as int) =~= s.subrange(p + 1, s.len() as int));
        assert(rest.update(0, seq![s[0]] + rest[0]) =~= seq![s.subrange(0, p)] + split_commas(
            s.subrange(p + 1, s.len() as int),
        ));
    }
}

/// Copies `v[start..end]` out.
fn subvec(v: &Vec<char>, start: usize, end: usize) -> (r: Vec<char>)
    requires
        start <= end <= v@.len(),
    ensures
        r@ == v@.subrange(start as int, end as int),
{
    let mut out: Vec<char> = Vec::new();
    let mut i = start;
    while i < end
        invariant
            start <= i <= end <= v@.len(),
            out@ =~= v@.subrange(start as int, i as int),
        decreases end - i,
    {
        out.push(v[i]);
        proof {
            assert(out@ =~= v@.subrange(start as int, i + 1));
        }
        i += 1;
    }
    out
}

/// Splits the text on its commas.
fn split_commas_exec(v: &Vec<char>) -> (parts: Vec<Vec<char>>)
    ensures
        parts@.map_values(|p: Vec<char>| p@) == split_commas(v@),
{
    let mut parts: Vec<Vec<char>> = Vec::new();
    let mut seg_start: usize = 0;
    let mut i: usize = 0;
    let n = v.len();
    proof {
        assert(parts@.map_values(|p: Vec<char>| p@) =~= Seq::<Seq<char>>::empty());
        assert(v@.subrange(0, n as int) =~= v@);
    }
    while i < n
        invariant
            0 <= seg_start <= i <= n,
            n == v@.len(),
            forall|j: int| seg_start <= j < i ==> #[trigger] v@[j] != ',',
            split_commas(v@) =~= parts@.map_values(|p: Vec<char>| p@) + split_commas(
                v@.subrange(seg_start as int, n as int),
            ),
        decreases n - i,
    {
        if v[i] == ',' {
            let ghost rest = v@.subrange(seg_start as int, n as int);
            proof {
                assert(forall|j: int|
                    0 <= j < i - seg_start ==> #[trigger] rest[j] == v@[seg_start + j] && rest[j]
                        != ',');
                assert(rest[i - seg_start] == ',');
                lemma_split_at_comma(rest, i - seg_start);
                assert(rest.subrange(0, i - seg_start) =~= v@.subrange(
                    seg_start as int,
                    i as int,
                ));
                assert(rest.subrange(i - seg_start + 1, rest.len() as int) =~= v@.subrange(
                    i + 1,
                    n as int,
                ));
            }
            let part = subvec(v, seg_start, i);
            let ghost old_parts = parts@;
            parts.push(part);
            proof {
                assert(parts@.map_values(|p: Vec<char>| p@) =~= old_parts.map_values(
                    |p: Vec<char>| p@,
                ).push(part@));
            }
            seg_start = i + 1;
        }
        i += 1;
    }
    let ghost rest = v@.subrange(seg_start as int, n as int);
    proof {
        assert(forall|j: int|
            0 <= j < rest.len() ==> #[trigger] rest[j] == v@[seg_start + j] && rest[j] != ',');
        lemma_split_no_comma(rest);
    }
    let part = subvec(v, seg_start, n);
    let ghost old_parts = parts@;
    parts.push(part);
    proof {
        assert(parts@.map_values(|p: Vec<char>| p@) =~= old_parts.map_values(
            |p: Vec<char>| p@,
        ).push(part@));
        assert(parts@.map_values(|p: Vec<char>| p@) =~= split_commas(v@));
    }
    parts
}

/// Shrinks `[start, end)` past the blanks on both sides.
fn trim_range(v: &Vec<char>, start: usize, end: usize) -> (r: (usize, usize))
    requires
        start <= end <= v@.len(),
    ensures
        start <= r.0 <= r.1 <= end,
        v@.subrange(r.0 as int, r.1 as int) == trim(v@.subrange(start as int, end as int)),
{
    let mut a = start;
    let mut b = end;
    while a < b && (v[a] == ' ' || v[a] == '\t')
        invariant
            start <= a <= b <= end <= v@.len(),
            b == end,
            trim_front(v@.subrange(a as int, b as int)) == trim_front(
                v@.subrange(start as int, end as int),
            ),
        decreases b - a,
    {
        proof {
            let cur = v@.subrange(a as int, b as int);
            assert(cur[0] == v@[a as int]);
            assert(cur.drop_first() =~= v@.subrange(a + 1, b as int));
        }
        a += 1;
    }
    proof {
        let cur = v@.subrange(a as int, b as int);
        assert(trim_front(cur) == cur);
    }
    while a < b && (v[b - 1] == ' ' || v[b - 1] == '\t')
        invariant
            start <= a <= b <= end <= v@.len(),
            trim_back(v@.subrange(a as int, b as int)) == trim_back(
                trim_front(v@.subrange(start as int, end as int)),
            ),
        decreases b - a,
    {
        proof {
            let cur = v@.subrange(a as int, b as int);
            assert(cur.last() == v@[b - 1]);
            assert(cur.drop_last() =~= v@.subrange(a as int, b - 1));
        }
        b -= 1;
    }
    proof {
        let cur = v@.subrange(a as int, b as int);
        assert(trim_back(cur) == cur);
    }
    (a, b)
}

/// The parsed, trimmed value of one comma-separated field.
pub open spec fn field_val(parts: Seq<Seq<char>>, i: int) -> Option<i64> {
    fixed_val(trim(parts[i]))
}

/// A parsed field is a coordinate within the model's range.
pub open spec fn field_in_range(parts: Seq<Seq<char>>, i: int) -> bool {
    field_val(parts, i) matches Some(x) && -MAX_COORD_NANO <= x <= MAX_COORD_NANO
}

/// The window a text parses to: four comma-separated fields, each a
/// decimal coordinate within range, properly ordered on both axes; `None`
/// when any of that fails.
pub open spec fn bbox_val(s: Seq<char>) -> Option<Bbox> {
    let parts = split_commas(s);
    if parts.len() != 4 {
        None
    } else if !(field_val(parts, 0) is Some && field_val(parts, 1) is Some && field_val(
        parts,
        2,
    ) is Some && field_val(parts, 3) is Some) {
        None
    } else if !(field_in_range(parts, 0) && field_in_range(parts, 1) && field_in_range(parts, 2)
        && field_in_range(parts, 3)) {
        None
    } else if field_val(parts, 0)->Some_0 >= field_val(parts, 2)->Some_0 {
        None
    } else if field_val(parts, 1)->Some_0 >= field_val(parts, 3)->Some_0 {
        None
    } else {
        Some(
            Bbox {
                min_lon: field_val(parts, 0)->Some_0,
                min_lat: field_val(parts, 1)->Some_0,
                max_lon: field_val(parts, 2)->Some_0,
                max_lat: field_val(parts, 3)->Some_0,
            },
        )
    }
}

/// Parses a window given as `minLon,minLat,maxLon,maxLat`, degrees as
/// decimal numbers. Rejects a malformed list, unparseable or out-of-range
/// numbers, and a window inverted or empty on either axis; an accepted
/// window is well formed.
pub fn parse_bbox(s: &str) -> (r: Result<Bbox, GpkgError>)
    ensures
        r is Ok <==> bbox_val(s@) is Some,
        r matches Ok(bb) ==> Some(bb) == bbox_val(s@),
        ({
            let parts = split_commas(s@);
            if parts.len() != 4 {
                {
                    &&& r matches Err(e)
                    &&& e matches GpkgError::InvalidBbox(d)
                    &&& d@ == "expected 4 comma-separated values"@
                }
            } else if !(field_val(parts, 0) is Some && field_val(parts, 1) is Some && field_val(
                parts,
                2,
            ) is Some && field_val(parts, 3) is Some) {
                {
                    &&& r matches Err(e)
                    &&& e matches GpkgError::InvalidBbox(d)
                    &&& d@ == "invalid number format"@
                }
            } else if !(field_in_range(parts, 0) && field_in_range(parts, 1) && field_in_range(
                parts,
                2,
            ) && field_in_range(parts, 3)) {
                {
                    &&& r matches Err(e)
                    &&& e matches GpkgError::InvalidBbox(d)
                    &&& d@ == "coordinate out of range"@
                }
            } else if field_val(parts, 0)->Some_0 >= field_val(parts, 2)->Some_0 {
                {
                    &&& r matches Err(e)
                    &&& e matches GpkgError::InvalidBbox(d)
                    &&& d@ == "min_lon must be less than max_lon"@
                }
            } else if field_val(parts, 1)->Some_0 >= field_val(parts, 3)->Some_0 {
                {
                    &&& r matches Err(e)
                    &&& e matches GpkgError::InvalidBbox(d)
                    &&& d@ == "min_lat must be less than max_lat"@
                }
            } else {
                {
                    &&& r matches Ok(bb)
                    &&& bb.min_lon == field_val(parts, 0)->Some_0
                    &&& bb.min_lat == field_val(parts, 1)->Some_0
                    &&& bb.max_lon == field_val(parts, 2)->Some_0
                    &&& bb.max_lat == field_val(parts, 3)->Some_0
                    &&& bb.wf()
                }
            }
        }),
{
    let chars = str_to_chars(s);
    let ghost parts_spec = split_commas(s@);
    let parts = split_commas_exec(&chars);
    proof {
        assert(parts@.map_values(|p: Vec<char>| p@) == parts_spec);
    }
    if parts.len() != 4 {
        return Err(GpkgError::InvalidBbox("expected 4 comma-separated values".to_owned()));
    }
    let mut vals: Vec<i64> = Vec::new();
    let mut k: usize = 0;
    while k < 4
        invariant
            0 <= k <= 4,
            parts@.len() == 4,
            parts@.map_values(|p: Vec<char>| p@) == parts_spec,
            parts_spec == split_commas(s@),
            parts_spec.len() == 4,
            vals@.len() == k,
            forall|i: int|
                0 <= i < k ==> field_val(parts_spec, i) == Some(#[trigger] vals@[i]),
        decreases 4 - k,
    {
        let part = &parts[k];
        let (a, b) = trim_range(part, 0, part.len());
        proof {
            assert(part@.subrange(0, part@.len() as int) =~= part@);
            assert(parts_spec[k as int] == part@);
        }
        let pv = parse_fixed(part, a, b);
        proof {
            assert(pv == field_val(parts_spec, k as int));
        }
        match pv {
            Option::Some(x) => {
                vals.push(x);
            },
            Option::None => {
                return Err(GpkgError::InvalidBbox("invalid number format".to_owned()));
            },
        }
        k += 1;
    }
    let v0 = vals[0];
    let v1 = vals[1];
    let v2 = vals[2];
    let v3 = vals[3];
    if v0 < -MAX_COORD_NANO || v0 > MAX_COORD_NANO || v1 < -MAX_COORD_NANO || v1 > MAX_COORD_NANO
        || v2 < -MAX_COORD_NANO || v2 > MAX_COORD_NANO || v3 < -MAX_COORD_NANO || v3
        > MAX_COORD_NANO {
        return Err(GpkgError::InvalidBbox("coordinate out of range".to_owned()));
    }
    if v0 >= v2 {
        return Err(GpkgError::InvalidBbox("min_lon must be less than max_lon".to_owned()));
    }
    if v1 >= v3 {
        return Err(GpkgError::InvalidBbox("min_lat must be less than max_lat".to_owned()));
    }
    Ok(Bbox { min_lon: v0, min_lat: v1, max_lon: v2, max_lat: v3 })
}

/// The text of a window: the four bounds as decimal degrees, joined by
/// commas.
pub open spec fn bbox_text(bb: Bbox) -> Seq<char> {
    fmt_fixed(bb.min_lon as int) + seq![','] + fmt_fixed(bb.min_lat as int) + seq![','] + fmt_fixed(
        bb.max_lon as int,
    ) + seq![','] + fmt_fixed(bb.max_lat as int)
}

/// Prints a window in the form `parse_bbox` reads.
pub fn format_bbox(bb: &Bbox) -> (r: String)
    requires
        bb.wf(),
    ensures
        r@ == bbox_text(*bb),
{
    let a = format_fixed(bb.min_lon);
    let b = format_fixed(bb.min_lat);
    let c = format_fixed(bb.max_lon);
    let d = format_fixed(bb.max_lat);
    proof {
        reveal_strlit(",");
        assert(","@ =~= seq![',']);
    }
    let r = a.concat(",").concat(b.as_str()).concat(",").concat(c.as_str()).concat(",").concat(
        d.as_str(),
    );
    proof {
        assert(r@ =~= bbox_text(*bb));
    }
    r
}

/// A trimming leaves a text alone when neither end is blank.
proof fn lemma_trim_id(s: Seq<char>)
    requires
        s.len() >= 1,
        !is_blank(s[0]),
        !is_blank(s.last()),
    ensures
        trim(s) == s,
{
    assert(trim_front(s) == s);
    assert(trim_back(s) == s);
}

/// The round trip of a window through its text: formatting a well-formed
/// window and parsing the result gives the window back. Together with
/// `parse_bbox`'s contract this says `parse_bbox(format_bbox(b))` returns
/// `Ok(b)` for every well-formed window `b`.
#[verifier::rlimit(100)]
pub proof fn lemma_bbox_roundtrip(bb: Bbox)
    requires
        bb.wf(),
    ensures
        ({
            let parts = split_commas(bbox_text(bb));
            &&& parts.len() == 4
            &&& field_val(parts, 0) == Some(bb.min_lon)
            &&& field_val(parts, 1) == Some(bb.min_lat)
            &&& field_val(parts, 2) == Some(bb.max_lon)
            &&& field_val(parts, 3) == Some(bb.max_lat)
        }),
{
    let a = fmt_fixed(bb.min_lon as int);
    let b = fmt_fixed(bb.min_lat as int);
    let c = fmt_fixed(bb.max_lon as int);
    let d = fmt_fixed(bb.max_lat as int);
    let s = bbox_text(bb);
    crate::numtext::lemma_fmt_fixed_chars(bb.min_lon as int);
    crate::numtext::lemma_fmt_fixed_chars(bb.min_lat as int);
    crate::numtext::lemma_fmt_fixed_chars(bb.max_lon as int);
    crate::numtext::lemma_fmt_fixed_chars(bb.max_lat as int);
    crate::numtext::lemma_fixed_roundtrip(bb.min_lon);
    crate::numtext::lemma_fixed_roundtrip(bb.min_lat);
    crate::numtext::lemma_fixed_roundtrip(bb.max_lon);
    crate::numtext::lemma_fixed_roundtrip(bb.max_lat);
    lemma_number_chars_not_special(a);
    lemma_number_chars_not_special(b);
    lemma_number_chars_not_special(c);
    lemma_number_chars_not_special(d);

    let p0 = a.len() as int;
    assert(s[p0] == ',');
    assert(forall|i: int| 0 <= i < p0 ==> #[trigger] s[i] == a[i] && s[i] != ',');
    lemma_split_at_comma(s, p0);
    let rest1 = s.subrange(p0 + 1, s.len() as int);
    assert(s.subrange(0, p0) =~= a);
    assert(rest1 =~= b + seq![','] + c + seq![','] + d);

    let p1 = b.len() as int;
    assert(rest1[p1] == ',');
    assert(forall|i: int| 0 <= i < p1 ==> #[trigger] rest1[i] == b[i] && rest1[i] != ',');
    lemma_split_at_comma(rest1, p1);
    let rest2 = rest1.subrange(p1 + 1, rest1.len() as int);
    assert(rest1.subrange(0, p1) =~= b);
    assert(rest2 =~= c + seq![','] + d);

    let p2 = c.len() as int;
    assert(rest2[p2] == ',');
    assert(forall|i: int| 0 <= i < p2 ==> #[trigger] rest2[i] == c[i] && rest2[i] != ',');
    lemma_split_at_comma(rest2, p2);
    let rest3 = rest2.subrange(p2 + 1, rest2.len() as int);
    assert(rest2.subrange(0, p2) =~= c);
    assert(rest3 =~= d);

    assert(forall|i: int| 0 <= i < rest3.len() ==> #[trigger] rest3[i] != ',');
    lemma_split_no_comma(rest3);

    let parts = split_commas(s);
    assert(parts =~= seq![a, b, c, d]);

    lemma_trim_id(a);
    lemma_trim_id(b);
    lemma_trim_id(c);
    lemma_trim_id(d);
}

/// A formatted number holds no comma and no blank at either end.
proof fn lemma_number_chars_not_special(s: Seq<char>)
    requires
        s.len() >= 1,
        forall|i: int|
            0 <= i < s.len() ==> crate::text::is_dec_digit(#[trigger] s[i]) || s[i] == '-' || s[i]
                == '.',
    ensures
        forall|i: int| 0 <= i < s.len() ==> #[trigger] s[i] != ',',
        !is_blank(s[0]),
        !is_blank(s.last()),
{
    assert forall|i: int| 0 <= i < s.len() implies #[trigger] s[i] != ',' && !is_blank(s[i]) by {
        if crate::text::is_dec_digit(s[i]) {
            assert(48 <= s[i] as u32 <= 57);
        }
    }
}

/// Raw arguments, already read off the command line by the surrounding
/// program: paths as text, numbers and colors still unparsed.
#[derive(Debug, Clone)]
pub struct Args {
    /// Path to the input file.
    pub input: String,
    /// Output directory.
    pub output_dir: String,
    /// Window as `minLon,minLat,maxLon,maxLat`, if given.
    pub bbox: Option<String>,
    /// Pixel size in degrees, if given; exclusive with `scale`.
    pub resolution: Option<String>,
    /// Scale in meters per pixel, if given; exclusive with `resolution`.
    pub scale: Option<String>,
    /// Fill color as RGBA hex digits.
    pub fill: String,
    /// Stroke color as RGB hex digits.
    pub stroke: String,
    /// Stroke width in pixels.
    pub stroke_width: u32,
    /// A single layer to render, if given.
    pub layer: Option<String>,
    /// Input format.
    pub format: Format,
    /// Output file name without extension, GeoJSON only.
    pub output_name: Option<String>,
}

/// Fully validated configuration.
#[derive(Debug, Clone)]
pub struct Config {
    /// Path to the input file.
    pub input: String,
    /// Output directory.
    pub output_dir: String,
    /// Window, or `None` to detect it from the data.
    pub bbox: Option<Bbox>,
    /// Resolution in nano-degrees per pixel.
    pub resolution: Option<i64>,
    /// Scale in nano-meters per pixel.
    pub scale: Option<i64>,
    /// Fill color, RGBA.
    pub fill: [u8; 4],
    /// Stroke color, RGB.
    pub stroke: [u8; 3],
    /// Stroke width in pixels.
    pub stroke_width: u32,
    /// Optional layer name filter.
    pub layer: Option<String>,
    /// Output file name for GeoJSON.
    pub output_name: Option<String>,
    /// Input format.
    pub format: Format,
}

/// The value of a positive decimal option, when it parses as one.
pub open spec fn pos_val(s: Seq<char>) -> Option<i64> {
    match fixed_val(s) {
        Option::Some(x) => if x >= 1 {
            Some(x)
        } else {
            None
        },
        Option::None => None,
    }
}

/// One past the last slash, or zero when there is none.
pub open spec fn last_slash_end(s: Seq<char>) -> int
    decreases s.len(),
{
    if s.len() == 0 {
        0
    } else if s.last() == '/' {
        s.len() as int
    } else {
        last_slash_end(s.drop_last())
    }
}

/// Index of the last dot strictly after position `b`, if any.
pub open spec fn last_dot_after(s: Seq<char>, b: int) -> Option<int>
    decreases s.len(),
{
    if s.len() == 0 || s.len() <= b + 1 {
        None
    } else if s.last() == '.' {
        Some(s.len() - 1)
    } else {
        last_dot_after(s.drop_last(), b)
    }
}

/// The base name of a path: what follows the last slash, cut before the
/// last dot that is not the base's first character; `output` when empty.
pub open spec fn file_stem(s: Seq<char>) -> Seq<char> {
    let b = last_slash_end(s);
    let e = match last_dot_after(s, b) {
        Option::None => s.len() as int,
        Option::Some(d) => d,
    };
    if e <= b {
        "output"@
    } else {
        s.subrange(b, e)
    }
}

impl Args {
    /// Validates the arguments and converts them into a configuration:
    /// exactly one of resolution and scale, both positive; window, fill and
    /// stroke parsed; the layer filter only for containers; the output name
    /// only for GeoJSON, defaulting to the input's base name.
    pub fn validate(self) -> (r: Result<Config, GpkgError>)
        ensures
            ({
                if self.resolution is None && self.scale is None {
                    {
                        &&& r matches Err(e)
                        &&& e is MissingResolutionOrScale
                    }
                } else if self.resolution is Some && self.scale is Some {
                    {
                        &&& r matches Err(e)
                        &&& e matches GpkgError::MutuallyExclusiveOptions(a, b)
                        &&& a@ == "resolution"@
                        &&& b@ == "scale"@
                    }
                } else if (match self.resolution {
                    Option::Some(rs) => pos_val(rs@) is None,
                    Option::None => false,
                }) {
                    {
                        &&& r matches Err(e)
                        &&& e matches GpkgError::InvalidResolution(d)
                        &&& self.resolution matches Some(rs)
                        &&& d@ == rs@
                    }
                } else if (match self.scale {
                    Option::Some(sc) => pos_val(sc@) is None,
                    Option::None => false,
                }) {
                    {
                        &&& r matches Err(e)
                        &&& e matches GpkgError::InvalidScale(d)
                        &&& self.scale matches Some(sc)
                        &&& d@ == sc@
                    }
                } else if (match self.bbox {
                    Option::Some(bs) => bbox_val(bs@) is None,
                    Option::None => false,
                }) {
                    {
                        &&& r matches Err(e)
                        &&& e is InvalidBbox
                    }
                } else if !(crate::color::hex_ok(self.fill@) && self.fill@.len() == 8) {
                    {
                        &&& r matches Err(e)
                        &&& e is InvalidColor
                    }
                } else if !(crate::color::hex_ok(self.stroke@) && self.stroke@.len() == 6) {
                    {
                        &&& r matches Err(e)
                        &&& e is InvalidColor
                    }
                } else if self.format == Format::Geojson && self.layer is Some {
                    {
                        &&& r matches Err(e)
                        &&& e matches GpkgError::InvalidFormatOption(d)
                        &&& d@ == "--layer cannot be used with geojson format"@
                    }
                } else if self.format == Format::Gpkg && self.output_name is Some {
                    {
                        &&& r matches Err(e)
                        &&& e matches GpkgError::InvalidFormatOption(d)
                        &&& d@ == "--output-name can only be used with geojson format"@
                    }
                } else {
                    {
                        &&& r matches Ok(cfg)
                        &&& cfg.input == self.input
                        &&& cfg.output_dir == self.output_dir
                        &&& cfg.stroke_width == self.stroke_width
                        &&& cfg.format == self.format
                        &&& cfg.layer == self.layer
                        &&& cfg.resolution == (match self.resolution {
                            Option::Some(rs) => pos_val(rs@),
                            Option::None => Option::<i64>::None,
                        })
                        &&& cfg.scale == (match self.scale {
                            Option::Some(sc) => pos_val(sc@),
                            Option::None => Option::<i64>::None,
                        })
                        &&& cfg.bbox == (match self.bbox {
                            Option::Some(bs) => bbox_val(bs@),
                            Option::None => Option::<Bbox>::None,
                        })
                        &&& (cfg.bbox matches Some(bb) ==> bb.wf())
                        &&& cfg.fill@ == seq![
                            crate::color::hex_byte(self.fill@, 0) as u8,
                            crate::color::hex_byte(self.fill@, 1) as u8,
                            crate::color::hex_byte(self.fill@, 2) as u8,
                            crate::color::hex_byte(self.fill@, 3) as u8,
                        ]
                        &&& cfg.stroke@ == seq![
                            crate::color::hex_byte(self.stroke@, 0) as u8,
                            crate::color::hex_byte(self.stroke@, 1) as u8,
                            crate::color::hex_byte(self.stroke@, 2) as u8,
                        ]
                        &&& (self.format == Format::Geojson ==> (match self.output_name {
                            Option::Some(n) => cfg.output_name matches Some(m) && m@ == n@,
                            Option::None => cfg.output_name matches Some(m) && m@ == file_stem(
                                self.input@,
                            ),
                        }))
                        &&& (self.format == Format::Gpkg ==> cfg.output_name is None)
                    }
                }
            }),
    {
        if self.resolution.is_none() && self.scale.is_none() {
            return Err(GpkgError::MissingResolutionOrScale);
        }
        if self.resolution.is_some() && self.scale.is_some() {
            return Err(
                GpkgError::MutuallyExclusiveOptions("resolution".to_owned(), "scale".to_owned()),
            );
        }
        let resolution: Option<i64> = match &self.resolution {
            Option::Some(rs) => {
                let chars = str_to_chars(rs.as_str());
                let pv = parse_fixed(&chars, 0, chars.len());
                proof {
                    assert(chars@.subrange(0, chars@.len() as int) =~= rs@);
                    assert(pv == fixed_val(rs@));
                }
                match pv {
                    Option::Some(x) => {
                        if x >= 1 {
                            proof {
                                assert(pos_val(rs@) == Some(x));
                            }
                            Some(x)
                        } else {
                            proof {
                                assert(pos_val(rs@) is None);
                            }
                            return Err(GpkgError::InvalidResolution(rs.clone()));
                        }
                    },
                    Option::None => {
                        proof {
                            assert(pos_val(rs@) is None);
                        }
                        return Err(GpkgError::InvalidResolution(rs.clone()));
                    },
                }
            },
            Option::None => None,
        };
        let scale: Option<i64> = match &self.scale {
            Option::Some(sc) => {
                let chars = str_to_chars(sc.as_str());
                let pv = parse_fixed(&chars, 0, chars.len());
                proof {
                    assert(chars@.subrange(0, chars@.len() as int) =~= sc@);
                    assert(pv == fixed_val(sc@));
                }
                match pv {
                    Option::Some(x) => {
                        if x >= 1 {
                            proof {
                                assert(pos_val(sc@) == Some(x));
                            }
                            Some(x)
                        } else {
                            proof {
                                assert(pos_val(sc@) is None);
                            }
                            return Err(GpkgError::InvalidScale(sc.clone()));
                        }
                    },
                    Option::None => {
                        proof {
                            assert(pos_val(sc@) is None);
                        }
                        return Err(GpkgError::InvalidScale(sc.clone()));
                    },
                }
            },
            Option::None => None,
        };
        let bbox: Option<Bbox> = match &self.bbox {
            Option::Some(bs) => {
                match parse_bbox(bs.as_str()) {
                    Result::Ok(bb) => Some(bb),
                    Result::Err(e) => {
                        return Err(e);
                    },
                }
            },
            Option::None => None,
        };
        let fill = match crate::color::parse_rgba(self.fill.as_str()) {
            Result::Ok(c) => c,
            Result::Err(e) => {
                return Err(e);
            },
        };
        let stroke = match crate::color::parse_rgb(self.stroke.as_str()) {
            Result::Ok(c) => c,
            Result::Err(e) => {
                return Err(e);
            },
        };
        if self.format == Format::Geojson && self.layer.is_some() {
            return Err(
                GpkgError::InvalidFormatOption(
                    "--layer cannot be used with geojson format".to_owned(),
                ),
            );
        }
        if self.format == Format::Gpkg && self.output_name.is_some() {
            return Err(
                GpkgError::InvalidFormatOption(
                    "--output-name can only be used with geojson format".to_owned(),
                ),
            );
        }
        let output_name: Option<String> = if self.format == Format::Geojson {
            match &self.output_name {
                Option::Some(n) => Some(n.clone()),
                Option::None => Some(stem_of(self.input.as_str())),
            }
        } else {
            None
        };
        Ok(
            Config {
                input: self.input,
                output_dir: self.output_dir,
                bbox,
                resolution,
                scale,
                fill,
                stroke,
                stroke_width: self.stroke_width,
                layer: self.layer,
                output_name,
                format: self.format,
            },
        )
    }
}

/// The base name of a path, extension cut, `output` when empty.
#[verifier::rlimit(100)]
fn stem_of(s: &str) -> (r: String)
    ensures
        r@ == file_stem(s@),
{
    let chars = str_to_chars(s);
    let n = chars.len();
    let mut b: usize = n;
    proof {
        assert(chars@.take(n as int) =~= chars@);
    }
    while b > 0 && chars[b - 1] != '/'
        invariant
            0 <= b <= n,
            n == chars@.len(),
            last_slash_end(chars@) == last_slash_end(chars@.take(b as int)),
        decreases b,
    {
        proof {
            let t = chars@.take(b as int);
            assert(t.last() == chars@[b - 1]);
            assert(t.drop_last() =~= chars@.take(b - 1));
        }
        b -= 1;
    }
    proof {
        let t = chars@.take(b as int);
        if b > 0 {
            assert(t.last() == chars@[b - 1]);
        }
        assert(last_slash_end(chars@) == b as int);
    }
    let mut j: usize = n;
    proof {
        assert(chars@.take(n as int) =~= chars@);
    }
    while j > 0 && j - 1 > b && chars[j - 1] != '.'
        invariant
            b <= j <= n || (j <= b + 1 && j <= n),
            j <= n,
            n == chars@.len(),
            last_dot_after(chars@, b as int) == last_dot_after(chars@.take(j as int), b as int),
        decreases j,
    {
        proof {
            let t = chars@.take(j as int);
            assert(t.last() == chars@[j - 1]);
            assert(t.drop_last() =~= chars@.take(j - 1));
        }
        j -= 1;
    }
    let e: usize = if j > 0 && j - 1 > b {
        proof {
            let t = chars@.take(j as int);
            assert(t.last() == chars@[j - 1]);
            assert(last_dot_after(chars@, b as int) == Some(j - 1));
        }
        j - 1
    } else {
        proof {
            let t = chars@.take(j as int);
            assert(t.len() <= b + 1);
            assert(last_dot_after(chars@, b as int) is None);
        }
        n
    };
    if e <= b {
        return "output".to_owned();
    }
    let part = subvec(&chars, b, e);
    string_from_chars(&part)
}

} // verus!
