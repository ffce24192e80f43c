use vstd::prelude::*;
use vstd::arithmetic::div_mod::{lemma_fundamental_div_mod, lemma_mod_division_less_than_divisor, lemma_div_pos_is_pos};
use vstd::arithmetic::mul::lemma_mul_inequality;
use crate::fx::{Fx, FX_ONE, fx_mul_bits, fx_div_bits, in_i64, tdiv, lemma_fx_mul_one, lemma_fx_mul_zero};

verus! {

/// An RGB color of fixed-point channels; unbounded while light accumulates.
#[derive(Clone, Copy, PartialEq, Eq, Structural, Debug)]
pub struct Color {
    pub r: Fx,
    pub g: Fx,
    pub b: Fx,
}

/// The mathematical view of a color: its three raw bit counts.
pub struct C3i {
    pub r: int,
    pub g: int,
    pub b: int,
}

impl View for Color {
    type V = C3i;

    open spec fn view(&self) -> C3i {
        C3i { r: self.r.bits as int, g: self.g.bits as int, b: self.b.bits as int }
    }
}

pub open spec fn cadd_i(a: C3i, b: C3i) -> C3i {
    C3i { r: a.r + b.r, g: a.g + b.g, b: a.b + b.b }
}

/// Componentwise product of two colors, with fixed-point rounding.
pub open spec fn cmul_i(a: C3i, b: C3i) -> C3i {
    C3i { r: fx_mul_bits(a.r, b.r), g: fx_mul_bits(a.g, b.g), b: fx_mul_bits(a.b, b.b) }
}

/// Scaling a color by a fixed-point factor.
pub open spec fn cscale_i(a: C3i, s: int) -> C3i {
    C3i { r: fx_mul_bits(a.r, s), g: fx_mul_bits(a.g, s), b: fx_mul_bits(a.b, s) }
}

/// Dividing each channel by a fixed-point scalar.
pub open spec fn cdiv_i(a: C3i, s: int) -> C3i {
    C3i { r: fx_div_bits(a.r, s), g: fx_div_bits(a.g, s), b: fx_div_bits(a.b, s) }
}

/// One channel of a linear interpolation: `a * f + b * (1 - f)`.
pub open spec fn blend_bits(a: int, b: int, f: int) -> int {
    fx_mul_bits(a, f) + fx_mul_bits(b, FX_ONE as int - f)
}

/// Linear interpolation of two colors by a fixed-point factor.
pub open spec fn blend_i(c1: C3i, c2: C3i, f: int) -> C3i {
    C3i {
        r: blend_bits(c1.r, c2.r, f),
        g: blend_bits(c1.g, c2.g, f),
        b: blend_bits(c1.b, c2.b, f),
    }
}

impl Color {
    pub fn new(r: Fx, g: Fx, b: Fx) -> (c: Color)
        ensures
            c@ == (C3i { r: r.bits as int, g: g.bits as int, b: b.bits as int }),
    {
        Color { r, g, b }
    }

    /// Pure black, the additive identity.
    pub fn black() -> (c: Color)
        ensures
            c@ == (C3i { r: 0, g: 0, b: 0 }),
    {
        Color { r: Fx { bits: 0 }, g: Fx { bits: 0 }, b: Fx { bits: 0 } }
    }

    /// Pure white.
    pub fn white() -> (c: Color)
        ensures
            c@ == (C3i { r: FX_ONE as int, g: FX_ONE as int, b: FX_ONE as int }),
    {
        Color { r: Fx { bits: FX_ONE }, g: Fx { bits: FX_ONE }, b: Fx { bits: FX_ONE } }
    }

    /// The sky's horizon-blue tint: (0.25, 0.5, 1).
    pub fn light_blue() -> (c: Color)
        ensures
            c@ == (C3i { r: 16384, g: 32768, b: FX_ONE as int }),
    {
        Color { r: Fx { bits: 16384 }, g: Fx { bits: 32768 }, b: Fx { bits: FX_ONE } }
    }

    pub fn add(self, o: Color) -> (c: Color)
        requires
            in_i64(self@.r + o@.r),
            in_i64(self@.g + o@.g),
            in_i64(self@.b + o@.b),
        ensures
            c@ == cadd_i(self@, o@),
    {
        Color { r: self.r.add(o.r), g: self.g.add(o.g), b: self.b.add(o.b) }
    }

    /// Componentwise product with another color.
    pub fn mul(self, o: Color) -> (c: Color)
        requires
            in_i64(fx_mul_bits(self@.r, o@.r)),
            in_i64(fx_mul_bits(self@.g, o@.g)),
            in_i64(fx_mul_bits(self@.b, o@.b)),
        ensures
            c@ == cmul_i(self@, o@),
    {
        Color { r: self.r.mul(o.r), g: self.g.mul(o.g), b: self.b.mul(o.b) }
    }

    /// Scale every channel by a fixed-point factor.
    pub fn scale(self, s: Fx) -> (c: Color)
        requires
            in_i64(fx_mul_bits(self@.r, s.bits as int)),
            in_i64(fx_mul_bits(self@.g, s.bits as int)),
            in_i64(fx_mul_bits(self@.b, s.bits as int)),
        ensures
            c@ == cscale_i(self@, s.bits as int),
    {
        Color { r: self.r.mul(s), g: self.g.mul(s), b: self.b.mul(s) }
    }

    /// Divide every channel by a fixed-point scalar.
    pub fn div(self, s: Fx) -> (c: Color)
        requires
            s.bits != 0,
            in_i64(fx_div_bits(self@.r, s.bits as int)),
            in_i64(fx_div_bits(self@.g, s.bits as int)),
            in_i64(fx_div_bits(self@.b, s.bits as int)),
        ensures
            c@ == cdiv_i(self@, s.bits as int),
    {
        Color { r: self.r.div(s), g: self.g.div(s), b: self.b.div(s) }
    }
}

/// Linear interpolation: `c1 * factor + c2 * (1 - factor)`.
pub fn blend(c1: Color, c2: Color, factor: Fx) -> (c: Color)
    requires
        in_i64(FX_ONE as int - factor.bits),
        in_i64(blend_bits(c1@.r, c2@.r, factor.bits as int)),
        in_i64(blend_bits(c1@.g, c2@.g, factor.bits as int)),
        in_i64(blend_bits(c1@.b, c2@.b, factor.bits as int)),
    ensures
        c@ == blend_i(c1@, c2@, factor.bits as int),
{
    let rest = Fx { bits: FX_ONE - factor.bits };
    let r: i64 = blend_channel(c1.r, c2.r, factor, rest);
    let g: i64 = blend_channel(c1.g, c2.g, factor, rest);
    let b: i64 = blend_channel(c1.b, c2.b, factor, rest);
    Color { r: Fx { bits: r }, g: Fx { bits: g }, b: Fx { bits: b } }
}

/// One channel of the interpolation, computed wide and narrowed at the end.
fn blend_channel(a: Fx, b: Fx, f: Fx, rest: Fx) -> (r: i64)
    requires
        rest.bits == FX_ONE as int - f.bits,
        in_i64(blend_bits(a.bits as int, b.bits as int, f.bits as int)),
    ensures
        r as int == blend_bits(a.bits as int, b.bits as int, f.bits as int),
{
    proof {
        crate::vec3::lemma_wide_term_bound(a.bits as int, f.bits as int);
        crate::vec3::lemma_wide_term_bound(b.bits as int, rest.bits as int);
    }
    let t1: i128 = (a.bits as i128) * (f.bits as i128) / (FX_ONE as i128);
    let t2: i128 = (b.bits as i128) * (rest.bits as i128) / (FX_ONE as i128);
    (t1 + t2) as i64
}

/// Blending with factor zero gives the second color exactly.
pub proof fn lemma_blend_zero(c1: C3i, c2: C3i)
    ensures
        blend_i(c1, c2, 0) == c2,
{
    lemma_fx_mul_zero(c1.r);
    lemma_fx_mul_zero(c1.g);
    lemma_fx_mul_zero(c1.b);
    lemma_fx_mul_one(c2.r);
    lemma_fx_mul_one(c2.g);
    lemma_fx_mul_one(c2.b);
}

/// Blending with factor one gives the first color exactly.
pub proof fn lemma_blend_one(c1: C3i, c2: C3i)
    ensures
        blend_i(c1, c2, FX_ONE as int) == c1,
{
    lemma_fx_mul_one(c1.r);
    lemma_fx_mul_one(c1.g);
    lemma_fx_mul_one(c1.b);
    lemma_fx_mul_zero(c2.r);
    lemma_fx_mul_zero(c2.g);
    lemma_fx_mul_zero(c2.b);
}

/// Blending two channels in [0, 1] by a factor in [0, 1] stays in [0, 1]:
/// the result is a convex combination up to truncation, which only shrinks.
pub proof fn lemma_blend_range(a: int, b: int, f: int)
    requires
        0 <= a <= FX_ONE as int,
        0 <= b <= FX_ONE as int,
        0 <= f <= FX_ONE as int,
    ensures
        0 <= blend_bits(a, b, f) <= FX_ONE as int,
{
    let one = FX_ONE as int;
    let x1 = a * f;
    let x2 = b * (one - f);
    assert(a * f >= 0 && b * (one - f) >= 0) by (nonlinear_arith)
        requires
            a >= 0,
            f >= 0,
            b >= 0,
            one - f >= 0,
    ;
    lemma_div_pos_is_pos(x1, one);
    lemma_div_pos_is_pos(x2, one);
    lemma_fundamental_div_mod(x1, one);
    lemma_fundamental_div_mod(x2, one);
    lemma_mod_division_less_than_divisor(x1, one);
    lemma_mod_division_less_than_divisor(x2, one);
    lemma_mul_inequality(a, one, f);
    lemma_mul_inequality(b, one, one - f);
    assert(one * f + one * (one - f) == one * one) by (nonlinear_arith);
    assert(one * (x1 / one) == (x1 / one) * one) by (nonlinear_arith);
    assert(one * (x2 / one) == (x2 / one) * one) by (nonlinear_arith);
    assert((a * f) / one + (b * (one - f)) / one <= one) by (nonlinear_arith)
        requires
            one == 65536,
            one * ((a * f) / one) <= a * f,
            one * ((b * (one - f)) / one) <= b * (one - f),
            a * f <= one * f,
            b * (one - f) <= one * (one - f),
            (a * f) / one >= 0,
            (b * (one - f)) / one >= 0,
    ;
}

/// Twice a channel scaled by one half lands within one rounding step of the
/// channel itself.
proof fn lemma_half_scale(a: int)
    ensures
        a - 1 <= 2 * fx_mul_bits(a, 32768) <= a + 1,
{
    if a * 32768 >= 0 {
        let q = (a * 32768) / (FX_ONE as int);
        lemma_fundamental_div_mod(a * 32768, FX_ONE as int);
        lemma_mod_division_less_than_divisor(a * 32768, FX_ONE as int);
    } else {
        let q = (-(a * 32768)) / (FX_ONE as int);
        lemma_fundamental_div_mod(-(a * 32768), FX_ONE as int);
        lemma_mod_division_less_than_divisor(-(a * 32768), FX_ONE as int);
    }
}

/// Blending with factor one half lands within one rounding step of the
/// arithmetic midpoint, in every channel.
pub proof fn lemma_blend_half_midpoint(c1: C3i, c2: C3i)
    ensures
        c1.r + c2.r - 2 <= 2 * blend_i(c1, c2, 32768).r <= c1.r + c2.r + 2,
        c1.g + c2.g - 2 <= 2 * blend_i(c1, c2, 32768).g <= c1.g + c2.g + 2,
        c1.b + c2.b - 2 <= 2 * blend_i(c1, c2, 32768).b <= c1.b + c2.b + 2,
{
    lemma_half_scale(c1.r);
    lemma_half_scale(c1.g);
    lemma_half_scale(c1.b);
    lemma_half_scale(c2.r);
    lemma_half_scale(c2.g);
    lemma_half_scale(c2.b);
}

} // verus!
