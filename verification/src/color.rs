//! Colors and the Porter-Duff "source over" compositor.
//!
//! Channels are normalized by 255; results are re-quantized by truncation.
//! All of it is exact integer arithmetic, so every property of the operator
//! is proved, not approximated.

use vstd::prelude::*;
use vstd::string::{StrSliceExecFns, StringExecFns};
use vstd::arithmetic::div_mod::{lemma_div_by_multiple, lemma_div_is_ordered};

verus! {

/// One RGBA pixel: red, green, blue, alpha.
pub type Px = (u8, u8, u8, u8);

/// Numerator of the blended alpha, in units of 1/255^2:
/// `out_a = (sa*255 + da*(255 - sa)) / 255^2`.
pub open spec fn blend_alpha_num(sa: int, da: int) -> int {
    sa * 255 + da * (255 - sa)
}

/// One blended color channel, re-quantized by truncation:
/// `out_c = (sc*sa + dc*da*(1 - sa)) / out_a` over channels normalized by 255.
pub open spec fn blend_channel(sc: int, sa: int, dc: int, da: int) -> int {
    (sc * sa * 255 + dc * da * (255 - sa)) / blend_alpha_num(sa, da)
}

/// The "source over" operator on whole pixels. A fully transparent result
/// leaves the destination untouched.
pub open spec fn blend_px(d: Px, s: Px) -> Px {
    let sa = s.3 as int;
    let da = d.3 as int;
    if blend_alpha_num(sa, da) == 0 {
        d
    } else {
        (
            blend_channel(s.0 as int, sa, d.0 as int, da) as u8,
            blend_channel(s.1 as int, sa, d.1 as int, da) as u8,
            blend_channel(s.2 as int, sa, d.2 as int, da) as u8,
            (blend_alpha_num(sa, da) / 255) as u8,
        )
    }
}

/// A blended channel never exceeds 255.
pub proof fn lemma_blend_channel_le_255(sc: int, sa: int, dc: int, da: int)
    requires
        0 <= sc <= 255,
        0 <= sa <= 255,
        0 <= dc <= 255,
        0 <= da <= 255,
        blend_alpha_num(sa, da) > 0,
    ensures
        0 <= blend_channel(sc, sa, dc, da) <= 255,
{
    let an = blend_alpha_num(sa, da);
    let num = sc * sa * 255 + dc * da * (255 - sa);
    assert(num <= 255 * an) by (nonlinear_arith)
        requires
            0 <= sc <= 255,
            0 <= sa <= 255,
            0 <= dc <= 255,
            0 <= da <= 255,
            an == sa * 255 + da * (255 - sa),
            num == sc * sa * 255 + dc * da * (255 - sa),
    ;
    assert(num >= 0) by (nonlinear_arith)
        requires
            0 <= sc <= 255,
            0 <= sa <= 255,
            0 <= dc <= 255,
            0 <= da <= 255,
            num == sc * sa * 255 + dc * da * (255 - sa),
    ;
    lemma_div_is_ordered(num, 255 * an, an);
    lemma_div_by_multiple(255int, an);
    assert(num / an >= 0) by {
        vstd::arithmetic::div_mod::lemma_div_pos_is_pos(num, an);
    }
}

/// Exact exec form of the compositor.
pub fn blend(d: Px, s: Px) -> (r: Px)
    ensures
        r == blend_px(d, s),
{
    let sa: u32 = s.3 as u32;
    let da: u32 = d.3 as u32;
    proof {
        assert(da as int * (255 - sa as int) <= 65025) by (nonlinear_arith)
            requires
                da <= 255,
                sa <= 255,
        ;
        assert(s.0 as int * (sa as int) <= 65025 && s.1 as int * (sa as int) <= 65025 && s.2 as int
            * (sa as int) <= 65025 && d.0 as int * (da as int) <= 65025 && d.1 as int * (da as int)
            <= 65025 && d.2 as int * (da as int) <= 65025 && s.0 as int * (sa as int) * 255
            <= 16581375 && s.1 as int * (sa as int) * 255 <= 16581375 && s.2 as int * (sa as int)
            * 255 <= 16581375 && d.0 as int * (da as int) * (255 - sa as int) <= 16581375 && d.1
            as int * (da as int) * (255 - sa as int) <= 16581375 && d.2 as int * (da as int) * (255
            - sa as int) <= 16581375 && sa as int * 255 + da as int * (255 - sa as int) <= 65025)
            by (nonlinear_arith)
            requires
                da <= 255,
                sa <= 255,
                s.0 <= 255,
                s.1 <= 255,
                s.2 <= 255,
                d.0 <= 255,
                d.1 <= 255,
                d.2 <= 255,
        ;
    }
    let an: u32 = sa * 255 + da * (255 - sa);
    if an == 0 {
        return d;
    }
    proof {
        lemma_blend_channel_le_255(s.0 as int, sa as int, d.0 as int, da as int);
        lemma_blend_channel_le_255(s.1 as int, sa as int, d.1 as int, da as int);
        lemma_blend_channel_le_255(s.2 as int, sa as int, d.2 as int, da as int);
        lemma_div_is_ordered(an as int, 255int * 255, 255int);
    }
    let r0: u32 = (s.0 as u32 * sa * 255 + d.0 as u32 * da * (255 - sa)) / an;
    let r1: u32 = (s.1 as u32 * sa * 255 + d.1 as u32 * da * (255 - sa)) / an;
    let r2: u32 = (s.2 as u32 * sa * 255 + d.2 as u32 * da * (255 - sa)) / an;
    let ra: u32 = an / 255;
    (r0 as u8, r1 as u8, r2 as u8, ra as u8)
}

/// True for the hexadecimal digit characters, either case.
pub open spec fn is_hex_digit(c: char) -> bool {
    (48 <= c as u32 <= 57) || (65 <= c as u32 <= 70) || (97 <= c as u32 <= 102)
}

/// The value of a hexadecimal digit.
pub open spec fn hex_val(c: char) -> int {
    if 48 <= c as u32 <= 57 {
        c as u32 - 48
    } else if 65 <= c as u32 <= 70 {
        c as u32 - 55
    } else {
        c as u32 - 87
    }
}

/// The text is an even run of hexadecimal digits.
pub open spec fn hex_ok(s: Seq<char>) -> bool {
    s.len() % 2 == 0 && forall|i: int| 0 <= i < s.len() ==> is_hex_digit(#[trigger] s[i])
}

/// Byte `i` of a decoded hex run: sixteen times the high digit plus the low.
pub open spec fn hex_byte(s: Seq<char>, i: int) -> int {
    16 * hex_val(s[2 * i]) + hex_val(s[2 * i + 1])
}

/// Relies on `hex::decode`: it succeeds exactly on an even run of hex
/// digits, upper or lower case, and yields one byte per digit pair.
#[verifier::external_body]
fn hex_decode(s: &str) -> (r: Option<Vec<u8>>)
    ensures
        r is Some <==> hex_ok(s@),
        r matches Some(b) ==> b@.len() * 2 == s@.len() && forall|i: int|
            0 <= i < b@.len() ==> (#[trigger] b@[i]) as int == hex_byte(s@, i),
{
    hex::decode(s).ok()
}

/// Parses an RGBA color from exactly eight hex digits.
pub fn parse_rgba(s: &str) -> (r: Result<[u8; 4], crate::errors::GpkgError>)
    ensures
        !hex_ok(s@) ==> ({
            &&& r matches Err(e)
            &&& e matches crate::errors::GpkgError::InvalidColor(d)
            &&& d@ == s@
        }),
        hex_ok(s@) && s@.len() != 8 ==> ({
            &&& r matches Err(e)
            &&& e matches crate::errors::GpkgError::InvalidColor(d)
            &&& d@ == "RGBA color must be 8 hex digits, got "@ + crate::text::dec_digits(
                s@.len() as int,
            )
        }),
        hex_ok(s@) && s@.len() == 8 ==> ({
            &&& r matches Ok(c)
            &&& c@ == seq![
                hex_byte(s@, 0) as u8,
                hex_byte(s@, 1) as u8,
                hex_byte(s@, 2) as u8,
                hex_byte(s@, 3) as u8,
            ]
        }),
{
    match hex_decode(s) {
        Option::None => Err(crate::errors::GpkgError::InvalidColor(s.to_owned())),
        Option::Some(b) => {
            if b.len() != 4 {
                let digits = s.unicode_len();
                proof {
                    assert(digits == s@.len());
                }
                let detail = "RGBA color must be 8 hex digits, got ".to_owned().concat(
                    crate::text::u64_to_string(digits as u64).as_str(),
                );
                Err(crate::errors::GpkgError::InvalidColor(detail))
            } else {
                let c = [b[0], b[1], b[2], b[3]];
                proof {
                    assert(c@ =~= seq![b@[0], b@[1], b@[2], b@[3]]);
                }
                Ok(c)
            }
        },
    }
}

/// Parses an RGB color from exactly six hex digits.
pub fn parse_rgb(s: &str) -> (r: Result<[u8; 3], crate::errors::GpkgError>)
    ensures
        !hex_ok(s@) ==> ({
            &&& r matches Err(e)
            &&& e matches crate::errors::GpkgError::InvalidColor(d)
            &&& d@ == s@
        }),
        hex_ok(s@) && s@.len() != 6 ==> ({
            &&& r matches Err(e)
            &&& e matches crate::errors::GpkgError::InvalidColor(d)
            &&& d@ == "RGB color must be 6 hex digits, got "@ + crate::text::dec_digits(
                s@.len() as int,
            )
        }),
        hex_ok(s@) && s@.len() == 6 ==> ({
            &&& r matches Ok(c)
            &&& c@ == seq![
                hex_byte(s@, 0) as u8,
                hex_byte(s@, 1) as u8,
                hex_byte(s@, 2) as u8,
            ]
        }),
{
    match hex_decode(s) {
        Option::None => Err(crate::errors::GpkgError::InvalidColor(s.to_owned())),
        Option::Some(b) => {
            if b.len() != 3 {
                let digits = s.unicode_len();
                proof {
                    assert(digits == s@.len());
                }
                let detail = "RGB color must be 6 hex digits, got ".to_owned().concat(
                    crate::text::u64_to_string(digits as u64).as_str(),
                );
                Err(crate::errors::GpkgError::InvalidColor(detail))
            } else {
                let c = [b[0], b[1], b[2]];
                proof {
                    assert(c@ =~= seq![b@[0], b@[1], b@[2]]);
                }
                Ok(c)
            }
        },
    }
}

/// Compositing a fully transparent source leaves the destination
/// bit-identical.
pub proof fn lemma_blend_transparent_identity(d: Px, s: Px)
    requires
        s.3 == 0,
    ensures
        blend_px(d, s) == d,
{
    let da = d.3 as int;
    if da != 0 {
        let an = blend_alpha_num(0, da);
        assert(an == da * 255);
        assert(da * 255 > 0) by (nonlinear_arith)
            requires
                da > 0,
        ;
        assert forall|sc: int, dc: int| 0 <= dc <= 255 implies blend_channel(
            sc,
            0,
            dc,
            da,
        ) == dc by {
            assert(sc * 0 * 255 + dc * da * 255 == dc * (da * 255)) by (nonlinear_arith);
            lemma_div_by_multiple(dc, da * 255int);
        }
        lemma_div_by_multiple(da, 255int);
        assert((da * 255) / 255 == da);
        assert(blend_px(d, s) == d);
    }
}

/// Compositing a fully opaque source yields exactly that source pixel.
pub proof fn lemma_blend_opaque_source(d: Px, s: Px)
    requires
        s.3 == 255,
    ensures
        blend_px(d, s) == s,
{
    let da = d.3 as int;
    let an = blend_alpha_num(255, da);
    assert(an == 255 * 255);
    assert forall|sc: int| 0 <= sc <= 255 implies blend_channel(sc, 255, 0, da) == sc by {
        assert(sc * 255 * 255 + 0 * da * 0 == sc * (255 * 255)) by (nonlinear_arith);
        lemma_div_by_multiple(sc, 255int * 255);
    }
    assert forall|sc: int, dc: int| 0 <= sc <= 255 && 0 <= dc <= 255 implies blend_channel(
        sc,
        255,
        dc,
        da,
    ) == sc by {
        assert(sc * 255 * 255 + dc * da * (255 - 255) == sc * (255 * 255)) by (nonlinear_arith);
        lemma_div_by_multiple(sc, 255int * 255);
    }
    lemma_div_by_multiple(255int, 255int);
    assert((255 * 255) / 255 == 255);
}

} // verus!
