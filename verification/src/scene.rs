use vstd::prelude::*;
use crate::fx::{
    Fx, FX_ONE, fx_div_bits, fx_sqrt_bits, isqrt_ok, isqrt, tdiv, lemma_isqrt_exists,
    lemma_tdiv_mono,
};
use crate::vec3::lemma_dot_self_nonneg;
use crate::geometry::{
    Ray, HitInfo, HitSpec, Sphere, Plane, Hittable, sphere_bounded, plane_bounded, ray_bounded,
    window_bounded, sphere_hit_t, sphere_hit_spec, plane_hit_t, plane_hit_spec, sphere_a,
    sphere_half_b, sphere_disc, B_T,
};
use crate::camera::{Camera, camera_bounded};

verus! {

/// The closed set of surface kinds a scene can hold.
#[derive(Clone, Copy, PartialEq, Eq, Structural, Debug)]
pub enum Surface {
    Sphere(Sphere),
    Plane(Plane),
}

pub open spec fn surface_bounded(s: Surface) -> bool {
    match s {
        Surface::Sphere(sp) => sphere_bounded(sp),
        Surface::Plane(p) => plane_bounded(p),
    }
}

/// What one surface answers to an intersection query.
pub open spec fn surface_hit_spec(s: Surface, r: Ray, t_min: int, t_max: int) -> Option<
    HitSpec,
> {
    match s {
        Surface::Sphere(sp) => sphere_hit_spec(sp, r, t_min, t_max),
        Surface::Plane(p) => plane_hit_spec(p, r, t_min, t_max),
    }
}

impl Surface {
    pub fn hit(&self, r: &Ray, t_min: Fx, t_max: Fx) -> (res: Option<HitInfo>)
        requires
            surface_bounded(*self),
            ray_bounded(*r),
            window_bounded(t_min.bits as int, t_max.bits as int),
        ensures
            match res {
                None => surface_hit_spec(*self, *r, t_min.bits as int, t_max.bits as int)
                    is None,
                Some(h) => surface_hit_spec(*self, *r, t_min.bits as int, t_max.bits as int)
                    == Some(h@),
            },
    {
        match self {
            Surface::Sphere(sp) => sp.hit_sphere(r, t_min, t_max),
            Surface::Plane(p) => p.hit_plane(r, t_min, t_max),
        }
    }
}

/// An accepted sphere parameter lies inside the closed query window; an
/// accepted plane parameter inside the open one. Either way it is inside the
/// closed window.
pub proof fn lemma_surface_window(s: Surface, r: Ray, t_min: int, t_max: int)
    ensures
        match surface_hit_spec(s, r, t_min, t_max) {
            Some(h) => t_min <= h.t <= t_max,
            None => true,
        },
{
}

/// Shrinking the upper bound of a sphere query keeps exactly the hits at or
/// under the new bound.
proof fn lemma_sphere_narrow(s: Sphere, r: Ray, t_min: int, b: int, t_max: int)
    requires
        b <= t_max,
    ensures
        match sphere_hit_t(s, r, t_min, t_max) {
            None => sphere_hit_t(s, r, t_min, b) is None,
            Some(t) => sphere_hit_t(s, r, t_min, b) == if t <= b {
                Some(t)
            } else {
                None::<int>
            },
        },
{
    let a = sphere_a(s, r);
    let disc = sphere_disc(s, r);
    if s.radius.bits == 0 || a == 0 || disc < 0 {
    } else {
        lemma_dot_self_nonneg(r.direction@);
        let hb = sphere_half_b(s, r);
        let arg = disc * (FX_ONE as int);
        lemma_isqrt_exists(arg);
        assert(isqrt_ok(arg, isqrt(arg)));
        let sq = fx_sqrt_bits(disc);
        assert(sq >= 0);
        assert((-hb - sq) * (FX_ONE as int) <= (-hb + sq) * (FX_ONE as int)) by (nonlinear_arith)
            requires
                sq >= 0,
        ;
        lemma_tdiv_mono((-hb - sq) * (FX_ONE as int), (-hb + sq) * (FX_ONE as int), a);
    }
}

/// The same for a plane query, whose window is open.
proof fn lemma_plane_narrow(p: Plane, r: Ray, t_min: int, b: int, t_max: int)
    requires
        b <= t_max,
    ensures
        match plane_hit_t(p, r, t_min, t_max) {
            None => plane_hit_t(p, r, t_min, b) is None,
            Some(t) => plane_hit_t(p, r, t_min, b) == if t < b {
                Some(t)
            } else {
                None::<int>
            },
        },
{
}

/// Shrinking the upper bound of a surface query: anything the narrowed query
/// answers is what the full query answers, at or under the new bound; and a
/// narrowed miss means the full query missed too or hit at or past the bound.
pub proof fn lemma_surface_narrow(s: Surface, r: Ray, t_min: int, b: int, t_max: int)
    requires
        b <= t_max,
    ensures
        match surface_hit_spec(s, r, t_min, b) {
            Some(h) => surface_hit_spec(s, r, t_min, t_max) == Some(h) && t_min <= h.t <= b,
            None => true,
        },
        surface_hit_spec(s, r, t_min, b) is None ==> match surface_hit_spec(
            s,
            r,
            t_min,
            t_max,
        ) {
            Some(h) => h.t >= b,
            None => true,
        },
{
    match s {
        Surface::Sphere(sp) => {
            lemma_sphere_narrow(sp, r, t_min, b, t_max);
        },
        Surface::Plane(p) => {
            lemma_plane_narrow(p, r, t_min, b, t_max);
        },
    }
}

/// A scene: every surface to draw, and the camera that looks at them.
#[derive(Debug)]
pub struct Scene {
    pub surfaces: Vec<Surface>,
    pub camera: Camera,
}

/// What an answer to a scene query must be: nothing only when every surface
/// misses the window; otherwise some surface's own hit, no farther than any
/// other surface's, and inside the window.
pub open spec fn scene_hit_char(s: Scene, r: Ray, t_min: int, t_max: int, res: Option<
    HitSpec>) -> bool {
    match res {
        None => forall|i: int|
            0 <= i < s.surfaces@.len() ==> (#[trigger] surface_hit_spec(
                s.surfaces@[i],
                r,
                t_min,
                t_max,
            )) is None,
        Some(h) => {
            &&& exists|i: int|
                0 <= i < s.surfaces@.len() && (#[trigger] surface_hit_spec(
                    s.surfaces@[i],
                    r,
                    t_min,
                    t_max,
                )) == Some(h)
            &&& forall|i: int|
                0 <= i < s.surfaces@.len() ==> match #[trigger] surface_hit_spec(
                    s.surfaces@[i],
                    r,
                    t_min,
                    t_max,
                ) {
                    Some(o) => h.t <= o.t,
                    None => true,
                }
            &&& t_min <= h.t <= t_max
        },
    }
}

pub open spec fn scene_bounded(s: Scene) -> bool {
    (forall|i: int|
        0 <= i < s.surfaces@.len() ==> surface_bounded(#[trigger] s.surfaces@[i]))
        && camera_bounded(s.camera)
}

impl Scene {
    /// The globally nearest intersection among all surfaces: the query window
    /// shrinks to the best parameter found so far, so each surface is asked
    /// only for hits that would improve on it.
    pub fn hit_scene(&self, r: &Ray, t_min: Fx, t_max: Fx) -> (res: Option<HitInfo>)
        requires
            scene_bounded(*self),
            ray_bounded(*r),
            window_bounded(t_min.bits as int, t_max.bits as int),
        ensures
            scene_hit_char(
                *self,
                *r,
                t_min.bits as int,
                t_max.bits as int,
                match res {
                    None => None::<HitSpec>,
                    Some(h) => Some(h@),
                },
            ),
    {
        let ghost tmig = t_min.bits as int;
        let ghost tmag = t_max.bits as int;
        let mut best: Option<HitInfo> = None;
        let mut idx: usize = 0;
        while idx < self.surfaces.len()
            invariant
                0 <= idx <= self.surfaces@.len(),
                scene_bounded(*self),
                ray_bounded(*r),
                window_bounded(tmig, tmag),
                tmig == t_min.bits as int,
                tmag == t_max.bits as int,
                match best {
                    None => forall|i: int|
                        0 <= i < idx ==> (#[trigger] surface_hit_spec(
                            self.surfaces@[i],
                            *r,
                            tmig,
                            tmag,
                        )) is None,
                    Some(h) => {
                        &&& exists|i: int|
                            0 <= i < idx && (#[trigger] surface_hit_spec(
                                self.surfaces@[i],
                                *r,
                                tmig,
                                tmag,
                            )) == Some(h@)
                        &&& forall|i: int|
                            0 <= i < idx ==> match #[trigger] surface_hit_spec(
                                self.surfaces@[i],
                                *r,
                                tmig,
                                tmag,
                            ) {
                                Some(o) => h@.t <= o.t,
                                None => true,
                            }
                        &&& tmig <= h.t.bits <= tmag
                    },
                },
            decreases self.surfaces@.len() - idx,
        {
            let s = self.surfaces[idx];
            assert(surface_bounded(s));
            let q = match best {
                None => s.hit(r, t_min, t_max),
                Some(h) => {
                    proof {
                        lemma_surface_narrow(s, *r, tmig, h.t.bits as int, tmag);
                    }
                    s.hit(r, t_min, h.t)
                },
            };
            proof {
                lemma_surface_window(s, *r, tmig, tmag);
            }
            if let Some(nh) = q {
                best = Some(nh);
            }
            idx = idx + 1;
        }
        best
    }
}

impl Hittable for Scene {
    open spec fn shape_bounded(&self) -> bool {
        scene_bounded(*self)
    }

    fn hit(&self, r: &Ray, t_min: Fx, t_max: Fx) -> (res: Option<HitInfo>) {
        self.hit_scene(r, t_min, t_max)
    }
}

} // verus!
