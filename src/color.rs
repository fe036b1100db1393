use vstd::prelude::*;

verus! {

/// An RGBA colour with one byte per channel.
#[derive(Clone, Copy, Debug, PartialEq, Eq, Structural)]
pub struct Rgba {
    pub r: u8,
    pub g: u8,
    pub b: u8,
    pub a: u8,
}

/// The colour of a material whose texture is missing.
pub open spec fn spec_color_empty() -> Rgba {
    Rgba { r: 255, g: 0, b: 204, a: 255 }
}

pub fn color_empty() -> (r: Rgba)
    ensures
        r == spec_color_empty(),
{
    Rgba { r: 255, g: 0, b: 204, a: 255 }
}

/// The colour that marks cells of an active chunk when debug drawing is on.
pub fn color_highlight() -> (r: Rgba)
    ensures
        r == (Rgba { r: 255, g: 0, b: 0, a: 255 }),
{
    Rgba { r: 255, g: 0, b: 0, a: 255 }
}

/// One channel scaled by `num / den`, never above the channel itself.
pub open spec fn scaled_channel(c: u8, num: u64, den: u64) -> int {
    if num >= den {
        c as int
    } else {
        (c as int * num as int) / den as int
    }
}

/// Darkens the colour channels by the factor `num / den` (clamped to 1);
/// the alpha channel is kept.
pub fn darken_color(color: Rgba, num: u64, den: u64) -> (r: Rgba)
    requires
        den > 0,
    ensures
        r.r as int == scaled_channel(color.r, num, den),
        r.g as int == scaled_channel(color.g, num, den),
        r.b as int == scaled_channel(color.b, num, den),
        r.a == color.a,
{
    Rgba {
        r: scale_channel(color.r, num, den),
        g: scale_channel(color.g, num, den),
        b: scale_channel(color.b, num, den),
        a: color.a,
    }
}

fn scale_channel(c: u8, num: u64, den: u64) -> (r: u8)
    requires
        den > 0,
    ensures
        r as int == scaled_channel(c, num, den),
{
    if num >= den {
        c
    } else {
        proof {
            assert(c as int * num as int <= 255 * 0xffff_ffff_ffff_ffff) by (nonlinear_arith)
                requires c <= 255, num <= 0xffff_ffff_ffff_ffff, c >= 0, num >= 0;
            assert(c as int * num as int <= 255 * num as int) by (nonlinear_arith)
                requires c <= 255;
            assert((c as int * num as int) / den as int <= c as int) by (nonlinear_arith)
                requires num < den, den > 0, c >= 0;
            assert((c as int * num as int) / den as int >= 0) by (nonlinear_arith)
                requires num >= 0, den > 0, c >= 0;
        }
        let prod: u128 = (c as u128) * (num as u128);
        (prod / (den as u128)) as u8
    }
}

} // verus!
