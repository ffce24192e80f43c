use vstd::prelude::*;
use crate::fx::{
    Fx, FX_ONE, fx_mul_bits, fx_div_bits, fx_sqrt_bits, sat_bits, tdiv, isqrt, isqrt_ok,
    isqrt_u128, lemma_isqrt_is, lemma_mul_abs_bound, lemma_tdiv_bound, fx_saturate,
};
use crate::vec3::{
    Vec3, V3i, sub_i, add_i, scale_i, dot_i, v3_bounded, dot_wide, lemma_dot_bound,
    lemma_dot_self_nonneg, absi, lemma_sq_reading, lemma_div_comp_abs,
};

verus! {

/// Bound on the components of a ray origin.
pub const B_ORIGIN: i64 = 0x100_0000_0000;

/// Bound on the components of a ray direction.
pub const B_DIR: i64 = 0x1_0000_0000;

/// Bound on the components of a surface's defining data.
pub const B_SURF: i64 = 0x10_0000_0000;

/// Bound on the parametric window handed to an intersection query.
pub const B_T: i64 = 0x100_0000_0000;

/// A ray: all points `origin + t * direction`. The direction need not be
/// normalized; the intersection formulas divide by its self dot product.
#[derive(Clone, Copy, PartialEq, Eq, Structural, Debug)]
pub struct Ray {
    pub origin: Vec3,
    pub direction: Vec3,
}

/// A successful intersection: the parametric distance, the outward surface
/// normal there, and the hit point itself.
#[derive(Clone, Copy, PartialEq, Eq, Structural, Debug)]
pub struct HitInfo {
    pub t: Fx,
    pub normal: Vec3,
    pub at: Vec3,
}

/// The mathematical view of a hit.
pub struct HitSpec {
    pub t: int,
    pub normal: V3i,
    pub at: V3i,
}

impl View for HitInfo {
    type V = HitSpec;

    open spec fn view(&self) -> HitSpec {
        HitSpec { t: self.t.bits as int, normal: self.normal@, at: self.at@ }
    }
}

#[derive(Clone, Copy, PartialEq, Eq, Structural, Debug)]
pub struct Sphere {
    pub center: Vec3,
    pub radius: Fx,
}

#[derive(Clone, Copy, PartialEq, Eq, Structural, Debug)]
pub struct Plane {
    pub normal: Vec3,
    pub point: Vec3,
}

pub open spec fn ray_bounded(r: Ray) -> bool {
    v3_bounded(r.origin@, B_ORIGIN as int) && v3_bounded(r.direction@, B_DIR as int)
}

pub open spec fn sphere_bounded(s: Sphere) -> bool {
    v3_bounded(s.center@, B_SURF as int) && -(B_SURF as int) <= s.radius.bits <= B_SURF as int
}

pub open spec fn plane_bounded(p: Plane) -> bool {
    v3_bounded(p.normal@, B_SURF as int) && v3_bounded(p.point@, B_SURF as int)
}

pub open spec fn window_bounded(t_min: int, t_max: int) -> bool {
    -(B_T as int) <= t_min <= B_T as int && -(B_T as int) <= t_max <= B_T as int
}

/// The point a ray reaches at parameter `t`.
pub open spec fn hit_point(r: Ray, t: int) -> V3i {
    add_i(r.origin@, scale_i(r.direction@, t))
}

/// The quadratic coefficients of a ray against a sphere:
/// `a = D.D`, `half_b = (O - C).D`, `c = (O - C).(O - C) - r*r`.
pub open spec fn sphere_a(s: Sphere, r: Ray) -> int {
    dot_i(r.direction@, r.direction@)
}

pub open spec fn sphere_oc(s: Sphere, r: Ray) -> V3i {
    sub_i(r.origin@, s.center@)
}

pub open spec fn sphere_half_b(s: Sphere, r: Ray) -> int {
    dot_i(sphere_oc(s, r), r.direction@)
}

pub open spec fn sphere_c(s: Sphere, r: Ray) -> int {
    dot_i(sphere_oc(s, r), sphere_oc(s, r)) - fx_mul_bits(
        s.radius.bits as int,
        s.radius.bits as int,
    )
}

pub open spec fn sphere_disc(s: Sphere, r: Ray) -> int {
    fx_mul_bits(sphere_half_b(s, r), sphere_half_b(s, r)) - fx_mul_bits(
        sphere_a(s, r),
        sphere_c(s, r),
    )
}

/// The accepted parameter of a sphere intersection, if any: the smaller root
/// when it lies inside the closed window, else the larger root, else nothing.
/// A zero radius or a zero direction never hits.
pub open spec fn sphere_hit_t(s: Sphere, r: Ray, t_min: int, t_max: int) -> Option<int> {
    let a = sphere_a(s, r);
    let hb = sphere_half_b(s, r);
    let disc = sphere_disc(s, r);
    if s.radius.bits == 0 || a == 0 || disc < 0 {
        None
    } else {
        let sq = fx_sqrt_bits(disc);
        let t1 = fx_div_bits(-hb - sq, a);
        if t_min <= t1 <= t_max {
            Some(t1)
        } else {
            let t2 = fx_div_bits(-hb + sq, a);
            if t_min <= t2 <= t_max {
                Some(t2)
            } else {
                None
            }
        }
    }
}

/// The outward normal of a sphere at a point: `(at - center) / radius`,
/// saturated where the quotient leaves the scalar range.
pub open spec fn sphere_normal(s: Sphere, at: V3i) -> V3i {
    V3i {
        x: sat_bits(fx_div_bits(at.x - s.center@.x, s.radius.bits as int)),
        y: sat_bits(fx_div_bits(at.y - s.center@.y, s.radius.bits as int)),
        z: sat_bits(fx_div_bits(at.z - s.center@.z, s.radius.bits as int)),
    }
}

/// A sphere normal really has length one: at any point whose squared
/// distance from the center reads within a few steps of the squared radius
/// — as a point computed on the surface does — the returned normal's self
/// dot product lands within one percent of one, for a radius of at least a
/// quarter unit. (A much smaller radius digitizes the quotient too
/// coarsely, and the saturation in sphere_normal can then take over.)
pub proof fn lemma_sphere_normal_unit(s: Sphere, at: V3i)
    requires
        absi(s.radius.bits as int) >= 16384,
        fx_mul_bits(s.radius.bits as int, s.radius.bits as int) - 16 <= dot_i(
            sub_i(at, s.center@),
            sub_i(at, s.center@),
        ),
        dot_i(sub_i(at, s.center@), sub_i(at, s.center@)) <= fx_mul_bits(
            s.radius.bits as int,
            s.radius.bits as int,
        ) + 16,
    ensures
        FX_ONE as int - 600 <= dot_i(sphere_normal(s, at), sphere_normal(s, at)),
        dot_i(sphere_normal(s, at), sphere_normal(s, at)) <= FX_ONE as int + 512,
{
    let one = FX_ONE as int;
    let rad = s.radius.bits as int;
    let m = absi(rad);
    let diff = sub_i(at, s.center@);
    let dr = fx_mul_bits(rad, rad);
    assert(m * m == rad * rad) by (nonlinear_arith)
        requires
            m == absi(rad),
            absi(rad) == if rad >= 0 {
                rad
            } else {
                -rad
            },
    ;
    lemma_sq_reading(rad);
    assert(dr * one <= m * m < dr * one + one);
    let d = dot_i(diff, diff);
    let ss = diff.x * diff.x + diff.y * diff.y + diff.z * diff.z;
    lemma_sq_reading(diff.x);
    lemma_sq_reading(diff.y);
    lemma_sq_reading(diff.z);
    assert(d * one <= ss < d * one + 3 * one);
    assert((dr - 16) * one == dr * one - 16 * one) by (nonlinear_arith);
    assert((dr + 16) * one == dr * one + 16 * one) by (nonlinear_arith);
    assert(d * one >= (dr - 16) * one && d * one <= (dr + 16) * one) by (nonlinear_arith)
        requires
            dr - 16 <= d <= dr + 16,
            one == 65536,
    ;
    assert(ss >= m * m - 1114112);
    assert(ss <= m * m + 1310720);
    // every component's magnitude is at most m + 128
    assert(-(m + 128) <= diff.x <= m + 128 && -(m + 128) <= diff.y <= m + 128 && -(m + 128)
        <= diff.z <= m + 128) by (nonlinear_arith)
        requires
            diff.x * diff.x <= ss,
            diff.y * diff.y <= ss,
            diff.z * diff.z <= ss,
            ss <= m * m + 1310720,
            m >= 16384,
    ;
    // per-component quotients and their remainders
    lemma_div_comp_abs(diff.x, rad);
    lemma_div_comp_abs(diff.y, rad);
    lemma_div_comp_abs(diff.z, rad);
    let qx = fx_div_bits(diff.x, rad);
    let qy = fx_div_bits(diff.y, rad);
    let qz = fx_div_bits(diff.z, rad);
    let ux = absi(qx);
    let uy = absi(qy);
    let uz = absi(qz);
    assert(ux <= one + 512 && uy <= one + 512 && uz <= one + 512) by (nonlinear_arith)
        requires
            ux * m <= absi(diff.x) * one,
            uy * m <= absi(diff.y) * one,
            uz * m <= absi(diff.z) * one,
            absi(diff.x) <= m + 128,
            absi(diff.y) <= m + 128,
            absi(diff.z) <= m + 128,
            absi(diff.x) >= 0,
            absi(diff.y) >= 0,
            absi(diff.z) >= 0,
            ux >= 0,
            uy >= 0,
            uz >= 0,
            m >= 16384,
            one == 65536,
    ;
    // the saturation in sphere_normal is the identity here
    let n = sphere_normal(s, at);
    assert(n.x == qx && n.y == qy && n.z == qz);
    // squared quotients against squared components
    assert(absi(diff.x) * absi(diff.x) == diff.x * diff.x) by (nonlinear_arith)
        requires
            absi(diff.x) == if diff.x >= 0 {
                diff.x
            } else {
                -diff.x
            },
    ;
    assert(absi(diff.y) * absi(diff.y) == diff.y * diff.y) by (nonlinear_arith)
        requires
            absi(diff.y) == if diff.y >= 0 {
                diff.y
            } else {
                -diff.y
            },
    ;
    assert(absi(diff.z) * absi(diff.z) == diff.z * diff.z) by (nonlinear_arith)
        requires
            absi(diff.z) == if diff.z >= 0 {
                diff.z
            } else {
                -diff.z
            },
    ;
    assert((ux * ux) * (m * m) <= (diff.x * diff.x) * (one * one) && (diff.x * diff.x) * (one
        * one) < ((ux + 1) * (ux + 1)) * (m * m)) by (nonlinear_arith)
        requires
            ux * m <= absi(diff.x) * one,
            absi(diff.x) * one < ux * m + m,
            ux >= 0,
            absi(diff.x) >= 0,
            m >= 1,
            absi(diff.x) * absi(diff.x) == diff.x * diff.x,
    ;
    assert((uy * uy) * (m * m) <= (diff.y * diff.y) * (one * one) && (diff.y * diff.y) * (one
        * one) < ((uy + 1) * (uy + 1)) * (m * m)) by (nonlinear_arith)
        requires
            uy * m <= absi(diff.y) * one,
            absi(diff.y) * one < uy * m + m,
            uy >= 0,
            absi(diff.y) >= 0,
            m >= 1,
            absi(diff.y) * absi(diff.y) == diff.y * diff.y,
    ;
    assert((uz * uz) * (m * m) <= (diff.z * diff.z) * (one * one) && (diff.z * diff.z) * (one
        * one) < ((uz + 1) * (uz + 1)) * (m * m)) by (nonlinear_arith)
        requires
            uz * m <= absi(diff.z) * one,
            absi(diff.z) * one < uz * m + m,
            uz >= 0,
            absi(diff.z) >= 0,
            m >= 1,
            absi(diff.z) * absi(diff.z) == diff.z * diff.z,
    ;
    let usq = ux * ux + uy * uy + uz * uz;
    assert(usq * (m * m) <= ss * (one * one)) by (nonlinear_arith)
        requires
            usq == ux * ux + uy * uy + uz * uz,
            ss == diff.x * diff.x + diff.y * diff.y + diff.z * diff.z,
            (ux * ux) * (m * m) <= (diff.x * diff.x) * (one * one),
            (uy * uy) * (m * m) <= (diff.y * diff.y) * (one * one),
            (uz * uz) * (m * m) <= (diff.z * diff.z) * (one * one),
    ;
    assert(ss * (one * one) < (usq + 2 * (ux + uy + uz) + 3) * (m * m)) by (nonlinear_arith)
        requires
            usq == ux * ux + uy * uy + uz * uz,
            ss == diff.x * diff.x + diff.y * diff.y + diff.z * diff.z,
            (diff.x * diff.x) * (one * one) < ((ux + 1) * (ux + 1)) * (m * m),
            (diff.y * diff.y) * (one * one) < ((uy + 1) * (uy + 1)) * (m * m),
            (diff.z * diff.z) * (one * one) < ((uz + 1) * (uz + 1)) * (m * m),
    ;
    assert(usq <= 0x1_0000_0000 + 0x200_0000) by (nonlinear_arith)
        requires
            usq * (m * m) <= ss * (one * one),
            one == 65536,
            ss <= m * m + 1310720,
            m >= 16384,
            usq >= 0,
    ;
    assert(usq > 0x1_0000_0000 - 0x200_0000) by (nonlinear_arith)
        requires
            ss * (one * one) < (usq + 2 * (ux + uy + uz) + 3) * (m * m),
            one == 65536,
            ss >= m * m - 1114112,
            m >= 16384,
            0 <= ux <= one + 512,
            0 <= uy <= one + 512,
            0 <= uz <= one + 512,
    ;
    lemma_sq_reading(qx);
    lemma_sq_reading(qy);
    lemma_sq_reading(qz);
    let dn = dot_i(n, n);
    assert(dn * one <= usq < dn * one + 3 * one);
    assert(dn <= one + 512);
    assert(dn >= one - 600);
}

pub open spec fn sphere_hit_spec(s: Sphere, r: Ray, t_min: int, t_max: int) -> Option<HitSpec> {
    match sphere_hit_t(s, r, t_min, t_max) {
        None => None,
        Some(t) => Some(
            HitSpec { t, normal: sphere_normal(s, hit_point(r, t)), at: hit_point(r, t) },
        ),
    }
}

/// The denominator of a plane intersection: `normal . D`.
pub open spec fn plane_d(p: Plane, r: Ray) -> int {
    dot_i(p.normal@, r.direction@)
}

/// The parameter where a non-parallel ray meets a plane.
pub open spec fn plane_t(p: Plane, r: Ray) -> int {
    fx_div_bits(dot_i(sub_i(p.point@, r.origin@), p.normal@), plane_d(p, r))
}

/// The accepted parameter of a plane intersection: nothing for a parallel ray
/// (exact zero denominator), else the crossing point strictly inside the
/// open window.
pub open spec fn plane_hit_t(p: Plane, r: Ray, t_min: int, t_max: int) -> Option<int> {
    if plane_d(p, r) == 0 {
        None
    } else {
        let t = plane_t(p, r);
        if t_min < t < t_max {
            Some(t)
        } else {
            None
        }
    }
}

pub open spec fn plane_hit_spec(p: Plane, r: Ray, t_min: int, t_max: int) -> Option<HitSpec> {
    match plane_hit_t(p, r, t_min, t_max) {
        None => None,
        Some(t) => Some(HitSpec { t, normal: p.normal@, at: hit_point(r, t) }),
    }
}

/// Truncating division with the divisor normalized to be positive, for
/// numerators that stay well inside the wide range.
fn div_signed(n: i128, d: i128) -> (q: i128)
    requires
        d != 0,
        -0x8000_0000_0000_0000_0000_0000 <= n as int <= 0x8000_0000_0000_0000_0000_0000,
        -0x8000_0000_0000_0000 <= d as int <= 0x8000_0000_0000_0000,
    ensures
        q as int == if d >= 0 {
            tdiv(n as int, d as int)
        } else {
            tdiv(-(n as int), -(d as int))
        },
        -0x8000_0000_0000_0000_0000_0000 <= q as int <= 0x8000_0000_0000_0000_0000_0000,
{
    proof {
        if d >= 0 {
            crate::fx::lemma_tdiv_small(n as int, d as int, 0x8000_0000_0000_0000_0000_0000);
        } else {
            crate::fx::lemma_tdiv_small(-(n as int), -(d as int), 0x8000_0000_0000_0000_0000_0000);
        }
    }
    if d > 0 {
        n / d
    } else {
        (-n) / (-d)
    }
}

/// The intersection protocol: the nearest valid intersection inside the
/// window, or nothing.
pub trait Hittable {
    spec fn shape_bounded(&self) -> bool;

    fn hit(&self, r: &Ray, t_min: Fx, t_max: Fx) -> (res: Option<HitInfo>)
        requires
            self.shape_bounded(),
            ray_bounded(*r),
            window_bounded(t_min.bits as int, t_max.bits as int),
    ;
}

/// Bounds on every intermediate of the sphere quadratic, as needed to keep
/// the wide arithmetic in range.
pub proof fn lemma_sphere_coeff_bounds(s: Sphere, r: Ray)
    requires
        sphere_bounded(s),
        ray_bounded(r),
    ensures
        -0x4_0000_0000_0000 <= sphere_a(s, r) <= 0x4_0000_0000_0000,
        -0x800_0000_0000_0000 <= sphere_half_b(s, r) <= 0x800_0000_0000_0000,
        -0x40_0000_0000_0000_0000 <= sphere_c(s, r) <= 0x40_0000_0000_0000_0000,
        sphere_a(s, r) >= 0,
{
    let oc = sphere_oc(s, r);
    assert(v3_bounded(oc, 0x200_0000_0000));
    // a: directions bounded by 2^32; each term at most 2^48.
    lemma_dot_bound(r.direction@, r.direction@, B_DIR as int, B_DIR as int, 0x1_0000_0000_0000);
    // half_b: 2^41 * 2^32 = 2^57 * 2^16.
    lemma_dot_bound(oc, r.direction@, 0x200_0000_0000, B_DIR as int, 0x200_0000_0000_0000);
    // oc . oc: 2^41 * 2^41 = 2^66 * 2^16.
    lemma_dot_bound(oc, oc, 0x200_0000_0000, 0x200_0000_0000, 0x4_0000_0000_0000_0000);
    // radius squared: 2^36 * 2^36 = 2^56 * 2^16.
    lemma_mul_abs_bound(s.radius.bits as int, s.radius.bits as int, B_SURF as int, B_SURF as int);
    lemma_tdiv_bound(
        (s.radius.bits as int) * (s.radius.bits as int),
        FX_ONE as int,
        0x100_0000_0000_0000,
    );
    lemma_dot_self_nonneg(r.direction@);
}

/// The discriminant stays far inside the wide integer range.
pub proof fn lemma_sphere_disc_bound(s: Sphere, r: Ray)
    requires
        sphere_bounded(s),
        ray_bounded(r),
    ensures
        -0x200_0000_0000_0000_0000_0000_0000 <= sphere_disc(s, r)
            <= 0x200_0000_0000_0000_0000_0000_0000,
{
    lemma_sphere_coeff_bounds(s, r);
    let hb = sphere_half_b(s, r);
    let a = sphere_a(s, r);
    let c = sphere_c(s, r);
    lemma_mul_abs_bound(hb, hb, 0x800_0000_0000_0000, 0x800_0000_0000_0000);
    lemma_tdiv_bound(hb * hb, FX_ONE as int, 0x100_0000_0000_0000_0000_0000_0000);
    lemma_mul_abs_bound(a, c, 0x4_0000_0000_0000, 0x40_0000_0000_0000_0000);
    lemma_tdiv_bound(a * c, FX_ONE as int, 0x100_0000_0000_0000_0000_0000_0000);
}

impl Hittable for Sphere {
    open spec fn shape_bounded(&self) -> bool {
        sphere_bounded(*self)
    }

    fn hit(&self, r: &Ray, t_min: Fx, t_max: Fx) -> (res: Option<HitInfo>) {
        self.hit_sphere(r, t_min, t_max)
    }
}

impl Sphere {
    /// Solve `|O + tD - C|^2 = radius^2` for t and accept the nearest root
    /// inside the closed window.
    pub fn hit_sphere(&self, r: &Ray, t_min: Fx, t_max: Fx) -> (res: Option<HitInfo>)
        requires
            sphere_bounded(*self),
            ray_bounded(*r),
            window_bounded(t_min.bits as int, t_max.bits as int),
        ensures
            match res {
                None => sphere_hit_spec(*self, *r, t_min.bits as int, t_max.bits as int) is None,
                Some(h) => sphere_hit_spec(*self, *r, t_min.bits as int, t_max.bits as int)
                    == Some(h@),
            },
    {
        proof {
            lemma_sphere_coeff_bounds(*self, *r);
            lemma_sphere_disc_bound(*self, *r);
            lemma_mul_abs_bound(
                self.radius.bits as int,
                self.radius.bits as int,
                0x8000_0000_0000_0000,
                0x8000_0000_0000_0000,
            );
        }
        if self.radius.bits == 0 {
            return None;
        }
        let oc = r.origin.sub(self.center);
        let a_w: i128 = dot_wide(&r.direction, &r.direction);
        if a_w == 0 {
            return None;
        }
        let hb_w: i128 = dot_wide(&oc, &r.direction);
        let oc2_w: i128 = dot_wide(&oc, &oc);
        let r2_w: i128 = (self.radius.bits as i128) * (self.radius.bits as i128) / (
        FX_ONE as i128);
        let c_w: i128 = oc2_w - r2_w;
        proof {
            lemma_mul_abs_bound(hb_w as int, hb_w as int, 0x800_0000_0000_0000, 0x800_0000_0000_0000);
            lemma_mul_abs_bound(a_w as int, c_w as int, 0x4_0000_0000_0000, 0x40_0000_0000_0000_0000);
        }
        let disc: i128 = hb_w * hb_w / (FX_ONE as i128) - a_w * c_w / (FX_ONE as i128);
        if disc < 0 {
            return None;
        }
        let sq: u64 = isqrt_u128((disc as u128) * 65536);
        proof {
            lemma_isqrt_is((disc as u128 * 65536) as int, sq as int);
            assert(sq as int == fx_sqrt_bits(disc as int));
            assert((sq as int) * (sq as int) <= disc * 65536);
            assert(sq as int <= 0x4000_0000_0000_0000) by (nonlinear_arith)
                requires
                    (sq as int) * (sq as int) <= disc * 65536,
                    0 <= sq as int,
                    disc * 65536 <= 0x1000_0000_0000_0000_0000_0000_0000_0000,
            ;
        }
        let sq_w: i128 = sq as i128;
        let tmin_w: i128 = t_min.bits as i128;
        let tmax_w: i128 = t_max.bits as i128;
        proof {
            lemma_dot_self_nonneg(r.direction@);
            lemma_tdiv_bound_auto((-hb_w - sq_w) as int, a_w as int);
            lemma_tdiv_bound_auto((-hb_w + sq_w) as int, a_w as int);
        }
        let mut t_acc: i128 = (-hb_w - sq_w) * (FX_ONE as i128) / a_w;
        if t_acc < tmin_w || t_acc > tmax_w {
            t_acc = (-hb_w + sq_w) * (FX_ONE as i128) / a_w;
            if t_acc < tmin_w || t_acc > tmax_w {
                return None;
            }
        }
        let t_fx = Fx { bits: t_acc as i64 };
        let at = ray_at(r, t_acc);
        let normal = self.normal_at(&at);
        Some(HitInfo { t: t_fx, normal, at })
    }

    /// The saturated outward normal at a point near the sphere's boundary.
    fn normal_at(&self, at: &Vec3) -> (n: Vec3)
        requires
            self.radius.bits != 0,
        ensures
            n@ == sphere_normal(*self, at@),
    {
        proof {
            lemma_mul_abs_bound(
                at@.x - self.center@.x,
                FX_ONE as int,
                0x2_0000_0000_0000_0000,
                0x1_0000,
            );
            lemma_mul_abs_bound(
                at@.y - self.center@.y,
                FX_ONE as int,
                0x2_0000_0000_0000_0000,
                0x1_0000,
            );
            lemma_mul_abs_bound(
                at@.z - self.center@.z,
                FX_ONE as int,
                0x2_0000_0000_0000_0000,
                0x1_0000,
            );
        }
        let nx = fx_saturate(
            div_signed(
                ((at.x.bits as i128) - (self.center.x.bits as i128)) * (FX_ONE as i128),
                self.radius.bits as i128,
            ),
        );
        let ny = fx_saturate(
            div_signed(
                ((at.y.bits as i128) - (self.center.y.bits as i128)) * (FX_ONE as i128),
                self.radius.bits as i128,
            ),
        );
        let nz = fx_saturate(
            div_signed(
                ((at.z.bits as i128) - (self.center.z.bits as i128)) * (FX_ONE as i128),
                self.radius.bits as i128,
            ),
        );
        Vec3 { x: nx, y: ny, z: nz }
    }
}

/// A quotient whose numerator is small is itself small.
proof fn lemma_tdiv_bound_auto(x: int, d: int)
    requires
        d >= 1,
        -0x8000_0000_0000_0000_0000_0000 <= x <= 0x8000_0000_0000_0000_0000_0000,
    ensures
        tdiv(x * (FX_ONE as int), d) <= 0x8000_0000_0000_0000_0000_0000int * 0x1_0000,
        -(0x8000_0000_0000_0000_0000_0000int * 0x1_0000) <= tdiv(x * (FX_ONE as int), d),
        -0x8000_0000_0000_0000_0000_0000_0000 <= x * (FX_ONE as int)
            <= 0x8000_0000_0000_0000_0000_0000_0000,
{
    lemma_mul_abs_bound(x, FX_ONE as int, 0x8000_0000_0000_0000_0000_0000, FX_ONE as int);
    lemma_tdiv_bound(x * (FX_ONE as int), d, 0x8000_0000_0000_0000_0000_0000int * 0x1_0000);
}

/// The point a ray reaches at a window-bounded parameter.
pub fn ray_at(r: &Ray, t: i128) -> (p: Vec3)
    requires
        ray_bounded(*r),
        -(B_T as int) <= t as int <= B_T as int,
    ensures
        p@ == hit_point(*r, t as int),
{
    proof {
        lemma_ray_at_bounds(*r, t as int);
    }
    let px: i128 = (r.origin.x.bits as i128) + (r.direction.x.bits as i128) * t / (FX_ONE as i128);
    let py: i128 = (r.origin.y.bits as i128) + (r.direction.y.bits as i128) * t / (FX_ONE as i128);
    let pz: i128 = (r.origin.z.bits as i128) + (r.direction.z.bits as i128) * t / (FX_ONE as i128);
    Vec3 {
        x: Fx { bits: px as i64 },
        y: Fx { bits: py as i64 },
        z: Fx { bits: pz as i64 },
    }
}

/// The components of a reached point stay inside the scalar range.
pub proof fn lemma_ray_at_bounds(r: Ray, t: int)
    requires
        ray_bounded(r),
        -(B_T as int) <= t <= B_T as int,
    ensures
        v3_bounded(hit_point(r, t), 0x200_0000_0000_0000),
{
    lemma_mul_abs_bound(r.direction@.x, t, B_DIR as int, B_T as int);
    lemma_mul_abs_bound(r.direction@.y, t, B_DIR as int, B_T as int);
    lemma_mul_abs_bound(r.direction@.z, t, B_DIR as int, B_T as int);
    lemma_tdiv_bound(r.direction@.x * t, FX_ONE as int, 0x100_0000_0000_0000);
    lemma_tdiv_bound(r.direction@.y * t, FX_ONE as int, 0x100_0000_0000_0000);
    lemma_tdiv_bound(r.direction@.z * t, FX_ONE as int, 0x100_0000_0000_0000);
}

impl Hittable for Plane {
    open spec fn shape_bounded(&self) -> bool {
        plane_bounded(*self)
    }

    fn hit(&self, r: &Ray, t_min: Fx, t_max: Fx) -> (res: Option<HitInfo>) {
        self.hit_plane(r, t_min, t_max)
    }
}

impl Plane {
    /// Meet the plane where `normal . (P(t) - point) = 0`; a parallel ray
    /// (exact zero denominator) never hits, and the crossing must lie
    /// strictly inside the open window.
    pub fn hit_plane(&self, r: &Ray, t_min: Fx, t_max: Fx) -> (res: Option<HitInfo>)
        requires
            plane_bounded(*self),
            ray_bounded(*r),
            window_bounded(t_min.bits as int, t_max.bits as int),
        ensures
            match res {
                None => plane_hit_spec(*self, *r, t_min.bits as int, t_max.bits as int) is None,
                Some(h) => plane_hit_spec(*self, *r, t_min.bits as int, t_max.bits as int)
                    == Some(h@),
            },
    {
        let d_w: i128 = dot_wide(&self.normal, &r.direction);
        if d_w == 0 {
            return None;
        }
        let po = self.point.sub(r.origin);
        let num_w: i128 = dot_wide(&po, &self.normal);
        proof {
            assert(v3_bounded(po@, 0x200_0000_0000));
            lemma_dot_bound(po@, self.normal@, 0x200_0000_0000, B_SURF as int, 0x2000_0000_0000_0000);
            lemma_dot_bound(self.normal@, r.direction@, B_SURF as int, B_DIR as int, 0x10_0000_0000_0000);
            lemma_tdiv_bound_plane(num_w as int, d_w as int);
        }
        let t_w: i128 = div_signed(num_w * (FX_ONE as i128), d_w);
        if t_w <= t_min.bits as i128 || t_w >= t_max.bits as i128 {
            return None;
        }
        let t_fx = Fx { bits: t_w as i64 };
        let at = ray_at(r, t_w);
        Some(HitInfo { t: t_fx, normal: self.normal, at })
    }
}

/// The plane quotient's numerator cannot reach the wide extremes.
proof fn lemma_tdiv_bound_plane(x: int, d: int)
    requires
        d != 0,
        -0x8000_0000_0000_0000 <= x <= 0x8000_0000_0000_0000,
    ensures
        x * (FX_ONE as int) != -0x8000_0000_0000_0000_0000_0000_0000_0000,
        -0x8000_0000_0000_0000_0000 <= x * (FX_ONE as int) <= 0x8000_0000_0000_0000_0000,
{
    lemma_mul_abs_bound(x, FX_ONE as int, 0x8000_0000_0000_0000, FX_ONE as int);
}

} // verus!
