use vstd::prelude::*;
use crate::fx::{
    Fx, FX_ONE, FX_SAT, sat_bits, fx_mul_bits, fx_div_bits, fx_sqrt_bits, lemma_sqrt_lower,
    lemma_sqrt_nonneg,
};
use crate::vec3::{
    Vec3, V3i, add_i, sub_i, neg_i, scale_i, div_i, cross_i, dot_i, sat_v, v3_bounded, dot_sat,
    cross_sat, lemma_dot_self_nonneg,
};
use crate::geometry::{Ray, B_SURF};

verus! {

/// The fixed-point value of pi.
pub const PI_BITS: i64 = 205887;

/// A pinhole camera: precomputed viewport basis vectors around an eye point.
#[derive(Clone, Copy, PartialEq, Eq, Structural, Debug)]
pub struct Camera {
    pub eye: Vec3,
    pub horizontal: Vec3,
    pub vertical: Vec3,
    pub upper_left: Vec3,
}

/// The basis vectors a camera may carry: saturated construction keeps every
/// component inside the saturation range.
pub open spec fn camera_bounded(c: Camera) -> bool {
    v3_bounded(c.eye@, FX_SAT as int) && v3_bounded(c.horizontal@, FX_SAT as int) && v3_bounded(
        c.vertical@,
        FX_SAT as int,
    ) && v3_bounded(c.upper_left@, FX_SAT as int)
}

/// The direction of the ray through image-plane coordinates (u, v):
/// `upper_left + u * horizontal + (1 - v) * vertical`, saturated stepwise.
pub open spec fn camera_ray_dir(c: Camera, ub: int, vb: int) -> V3i {
    sat_v(
        add_i(
            sat_v(add_i(c.upper_left@, sat_v(scale_i(c.horizontal@, ub)))),
            sat_v(scale_i(c.vertical@, sat_bits(FX_ONE as int - vb))),
        ),
    )
}

/// A saturated fixed-point product.
pub open spec fn fxm(a: int, b: int) -> int {
    sat_bits(fx_mul_bits(a, b))
}

/// A saturated fixed-point quotient.
pub open spec fn fxd(a: int, b: int) -> int {
    sat_bits(fx_div_bits(a, b))
}

/// The saturated magnitude of a vector.
#[verifier::opaque]
pub open spec fn mag_sat_bits(v: V3i) -> int {
    fx_sqrt_bits(sat_bits(dot_i(v, v)))
}

/// A vector scaled to length one through the saturated magnitude.
#[verifier::opaque]
pub open spec fn norm_sat(v: V3i) -> V3i {
    sat_v(div_i(v, mag_sat_bits(v)))
}

/// The sine power series, truncated after the seventh power, in saturated
/// fixed-point steps.
#[verifier::opaque]
pub open spec fn sin_bits(x: int) -> int {
    let x2 = fxm(x, x);
    let x3 = fxm(x2, x);
    let x5 = fxm(x3, x2);
    let x7 = fxm(x5, x2);
    sat_bits(sat_bits(sat_bits(x - fxd(x3, 393216)) + fxd(x5, 7864320)) - fxd(x7, 330301440))
}

/// The cosine power series, truncated after the sixth power.
#[verifier::opaque]
pub open spec fn cos_bits(x: int) -> int {
    let x2 = fxm(x, x);
    let x4 = fxm(x2, x2);
    let x6 = fxm(x4, x2);
    sat_bits(
        sat_bits(sat_bits(FX_ONE as int - fxd(x2, 131072)) + fxd(x4, 1572864)) - fxd(
            x6,
            47185920,
        ),
    )
}

/// The magnitude of the tangent: |sin/cos|, saturated where the cosine
/// series vanishes.
#[verifier::opaque]
pub open spec fn tan_abs_bits(x: int) -> int {
    let c = cos_bits(x);
    if c == 0 {
        FX_SAT as int
    } else {
        let t = fxd(sin_bits(x), c);
        if t >= 0 {
            t
        } else {
            -t
        }
    }
}

/// Half the field of view, in radians: `fov * pi / 180 / 2`.
#[verifier::opaque]
pub open spec fn half_fov_rads(fov: int) -> int {
    fxd(fxd(fxm(fov, PI_BITS as int), 11796480), 131072)
}

/// The look direction: toward the target, rescaled to the focal length
/// when one is given.
#[verifier::opaque]
pub open spec fn cam_v_look(eye: Vec3, look_at: Vec3, focal: Option<Fx>) -> V3i {
    let diff = sat_v(sub_i(look_at@, eye@));
    match focal {
        None => diff,
        Some(fl) => sat_v(scale_i(norm_sat(diff), fl.bits as int)),
    }
}

/// The viewport height: `2 * |tan(fov/2)| * |look|`.
#[verifier::opaque]
pub open spec fn cam_vh(fov: int, vl: V3i) -> int {
    fxm(fxm(tan_abs_bits(half_fov_rads(fov)), mag_sat_bits(vl)), 131072)
}

/// The up hint orthogonalized against the look direction.
#[verifier::opaque]
pub open spec fn cam_vert0(up: V3i, vl: V3i) -> V3i {
    let ratio = fxd(sat_bits(dot_i(up, vl)), sat_bits(dot_i(vl, vl)));
    sat_v(sub_i(up, sat_v(scale_i(vl, ratio))))
}

/// The horizontal axis before normalization: the negated cross product of
/// the vertical basis vector and the look direction.
#[verifier::opaque]
pub open spec fn cam_hor0(vert: V3i, vl: V3i) -> V3i {
    sat_v(neg_i(sat_v(cross_i(vert, vl))))
}

/// The upper-left viewport corner: `look - vertical/2 - horizontal/2`.
#[verifier::opaque]
pub open spec fn cam_upper_left(vl: V3i, vert: V3i, hor: V3i) -> V3i {
    sat_v(sub_i(sat_v(sub_i(vl, sat_v(scale_i(vert, 32768)))), sat_v(scale_i(hor, 32768))))
}

pub open spec fn v3_to_vec(a: V3i) -> Vec3 {
    Vec3 { x: Fx { bits: a.x as i64 }, y: Fx { bits: a.y as i64 }, z: Fx { bits: a.z as i64 } }
}

/// What Camera::new computes, stage by stage. Nothing is returned where a
/// normalization would divide by zero: a look direction, a vertical hint or
/// a horizontal axis with no measurable length.
#[verifier::opaque]
pub open spec fn camera_new_spec(
    eye: Vec3,
    look_at: Vec3,
    up: Vec3,
    fov: Fx,
    aspect: Fx,
    focal: Option<Fx>,
) -> Option<Camera> {
    let diff = sat_v(sub_i(look_at@, eye@));
    if sat_bits(dot_i(diff, diff)) == 0 {
        None
    } else {
        let vl = cam_v_look(eye, look_at, focal);
        let vh = cam_vh(fov.bits as int, vl);
        let vw = fxm(vh, aspect.bits as int);
        if sat_bits(dot_i(vl, vl)) == 0 {
            None
        } else {
            let vert0 = cam_vert0(up@, vl);
            if sat_bits(dot_i(vert0, vert0)) == 0 {
                None
            } else {
                let vertical = sat_v(scale_i(norm_sat(vert0), vh));
                let hor0 = cam_hor0(vertical, vl);
                if sat_bits(dot_i(hor0, hor0)) == 0 {
                    None
                } else {
                    let horizontal = sat_v(scale_i(norm_sat(hor0), vw));
                    Some(
                        Camera {
                            eye,
                            horizontal: v3_to_vec(horizontal),
                            vertical: v3_to_vec(vertical),
                            upper_left: v3_to_vec(cam_upper_left(vl, vertical, horizontal)),
                        },
                    )
                }
            }
        }
    }
}

/// The saturated magnitude of a vector, total on all inputs.
pub fn magnitude_sat(v: &Vec3) -> (r: Fx)
    ensures
        r.bits == mag_sat_bits(v@),
        r.bits >= 0,
{
    proof {
        reveal(mag_sat_bits);
        lemma_dot_self_nonneg(v@);
        lemma_sqrt_nonneg(sat_bits(dot_i(v@, v@)));
    }
    let d = dot_sat(v, v);
    d.sqrt()
}

/// A vector scaled to length one. The caller keeps vectors whose saturated
/// self dot product is zero away.
pub fn normalize_sat(v: &Vec3) -> (r: Vec3)
    requires
        sat_bits(dot_i(v@, v@)) != 0,
    ensures
        r@ == norm_sat(v@),
{
    proof {
        reveal(norm_sat);
        reveal(mag_sat_bits);
        lemma_dot_self_nonneg(v@);
        lemma_sqrt_lower(sat_bits(dot_i(v@, v@)));
    }
    let m = magnitude_sat(v);
    v.div_sat(m)
}

/// One saturated term of a power series: `num / (k * 65536)`.
fn series_term(num: Fx, k: i64) -> (r: Fx)
    requires
        k >= 1,
    ensures
        r.bits == fxd(num.bits as int, k as int),
{
    num.div_sat(Fx { bits: k })
}

/// The truncated sine series.
pub fn sin_fx(x: Fx) -> (r: Fx)
    ensures
        r.bits == sin_bits(x.bits as int),
{
    proof {
        reveal(sin_bits);
    }
    let x2 = x.mul_sat(x);
    let x3 = x2.mul_sat(x);
    let x5 = x3.mul_sat(x2);
    let x7 = x5.mul_sat(x2);
    x.sub_sat(series_term(x3, 393216)).add_sat(series_term(x5, 7864320)).sub_sat(
        series_term(x7, 330301440),
    )
}

/// The truncated cosine series.
pub fn cos_fx(x: Fx) -> (r: Fx)
    ensures
        r.bits == cos_bits(x.bits as int),
{
    proof {
        reveal(cos_bits);
    }
    let x2 = x.mul_sat(x);
    let x4 = x2.mul_sat(x2);
    let x6 = x4.mul_sat(x2);
    Fx { bits: FX_ONE }.sub_sat(series_term(x2, 131072)).add_sat(series_term(x4, 1572864))
        .sub_sat(series_term(x6, 47185920))
}

/// The magnitude of the tangent.
pub fn tan_abs_fx(x: Fx) -> (r: Fx)
    ensures
        r.bits == tan_abs_bits(x.bits as int),
{
    proof {
        reveal(tan_abs_bits);
    }
    let c = cos_fx(x);
    if c.bits == 0 {
        return Fx { bits: FX_SAT };
    }
    let t = sin_fx(x).div_sat(c);
    if t.bits >= 0 {
        t
    } else {
        proof {
            assert(sat_bits(fx_div_bits(sin_bits(x.bits as int), c.bits as int))
                >= -(FX_SAT as int));
        }
        Fx { bits: -t.bits }
    }
}

impl Camera {
    /// Build the viewport basis from an eye point, a look-at target, an
    /// up-direction hint, a vertical field of view in degrees, the image's
    /// aspect ratio and an optional focal length. Nothing is returned where
    /// a zero-length look direction, vertical or horizontal axis would have
    /// to be normalized.
    pub fn new(
        eye: Vec3,
        look_at: Vec3,
        up: Vec3,
        fov: Fx,
        aspect: Fx,
        focal: Option<Fx>,
    ) -> (res: Option<Camera>)
        requires
            v3_bounded(eye@, B_SURF as int),
            v3_bounded(look_at@, B_SURF as int),
            v3_bounded(up@, B_SURF as int),
        ensures
            res == camera_new_spec(eye, look_at, up, fov, aspect, focal),
            match res {
                Some(c) => camera_bounded(c),
                None => true,
            },
    {
        let ghost spec_res = camera_new_spec(eye, look_at, up, fov, aspect, focal);
        let diff = look_at.sub_sat(eye);
        let diff_d = dot_sat(&diff, &diff);
        if diff_d.bits == 0 {
            proof {
                assert(spec_res is None) by {
                    reveal(camera_new_spec);
                }
            }
            return None;
        }
        let v_look = match focal {
            None => diff,
            Some(fl) => normalize_sat(&diff).mul_sat(fl),
        };
        proof {
            assert(v_look@ == cam_v_look(eye, look_at, focal)) by {
                reveal(cam_v_look);
            }
        }
        let half = series_term(
            Fx { bits: PI_BITS }.mul_sat(fov).div_sat(Fx { bits: 11796480 }),
            131072,
        );
        proof {
            assert(half.bits == half_fov_rads(fov.bits as int)) by {
                reveal(half_fov_rads);
                crate::fx::lemma_fx_mul_comm(fov.bits as int, PI_BITS as int);
            }
        }
        let t = tan_abs_fx(half);
        let vh = t.mul_sat(magnitude_sat(&v_look)).mul_sat(Fx { bits: 131072 });
        proof {
            assert(vh.bits == cam_vh(fov.bits as int, v_look@)) by {
                reveal(cam_vh);
            }
        }
        let vw = vh.mul_sat(aspect);
        let dd = dot_sat(&v_look, &v_look);
        if dd.bits == 0 {
            proof {
                assert(spec_res is None) by {
                    reveal(camera_new_spec);
                }
            }
            return None;
        }
        let ratio = dot_sat(&up, &v_look).div_sat(dd);
        let vert0 = up.sub_sat(v_look.mul_sat(ratio));
        proof {
            assert(vert0@ == cam_vert0(up@, v_look@)) by {
                reveal(cam_vert0);
            }
        }
        let vert0_d = dot_sat(&vert0, &vert0);
        if vert0_d.bits == 0 {
            proof {
                assert(spec_res is None) by {
                    reveal(camera_new_spec);
                }
            }
            return None;
        }
        let vertical = normalize_sat(&vert0).mul_sat(vh);
        let hor0 = cross_sat(&vertical, &v_look).neg_sat();
        proof {
            assert(hor0@ == cam_hor0(vertical@, v_look@)) by {
                reveal(cam_hor0);
            }
        }
        let hor0_d = dot_sat(&hor0, &hor0);
        if hor0_d.bits == 0 {
            proof {
                assert(spec_res is None) by {
                    reveal(camera_new_spec);
                }
            }
            return None;
        }
        let horizontal = normalize_sat(&hor0).mul_sat(vw);
        let upper_left = v_look.sub_sat(vertical.mul_sat(Fx { bits: 32768 })).sub_sat(
            horizontal.mul_sat(Fx { bits: 32768 }),
        );
        proof {
            assert(upper_left@ == cam_upper_left(v_look@, vertical@, horizontal@)) by {
                reveal(cam_upper_left);
            }
        }
        let cam = Camera { eye, horizontal, vertical, upper_left };
        proof {
            assert(spec_res == Some(cam)) by {
                reveal(camera_new_spec);
            }
        }
        Some(cam)
    }

    /// The ray from the eye through fractional image-plane coordinates
    /// (u, v), v = 0 at the top of the image.
    pub fn ray(&self, u: Fx, v: Fx) -> (r: Ray)
        ensures
            r.origin == self.eye,
            r.direction@ == camera_ray_dir(*self, u.bits as int, v.bits as int),
    {
        let rest = Fx { bits: FX_ONE }.sub_sat(v);
        let dir = self.upper_left.add_sat(self.horizontal.mul_sat(u)).add_sat(
            self.vertical.mul_sat(rest),
        );
        Ray { origin: self.eye, direction: dir }
    }
}

} // verus!
