use vstd::prelude::*;
use vstd::arithmetic::div_mod::lemma_div_pos_is_pos;
use crate::fx::{
    Fx, FX_ONE, FX_SAT, fx_mul_bits, fx_div_bits, fx_sqrt_bits, clamp01_bits, sat_bits, tdiv,
    in_i64, lemma_fx_mul_bound, lemma_isqrt_exists, isqrt, isqrt_ok, lemma_tdiv_bound,
};
use crate::vec3::{
    Vec3, V3i, div_i, dot_i, mag_bits, v3_bounded, dot_wide, dot_sat, lemma_dot_bound,
    lemma_dot_self_nonneg, unit_dir, neg_i,
};
use crate::color::{Color, C3i, blend, blend_i, blend_bits, lemma_blend_range};
use crate::geometry::{Ray, HitSpec, ray_bounded, B_ORIGIN, B_DIR, B_T};
use crate::scene::{Scene, scene_bounded, scene_hit_char, surface_hit_spec};
use crate::camera::{camera_ray_dir, v3_to_vec};

verus! {

/// The lower end of every shading query window: a single fixed-point step
/// past zero, so a bounce does not immediately meet its own surface.
pub const EPS_BITS: i64 = 1;

/// No surface of the scene meets the ray inside the shading window.
pub open spec fn scene_misses(s: Scene, r: Ray) -> bool {
    forall|i: int|
        0 <= i < s.surfaces@.len() ==> (#[trigger] surface_hit_spec(
            s.surfaces@[i],
            r,
            EPS_BITS as int,
            B_T as int,
        )) is None
}

pub open spec fn black_c() -> C3i {
    C3i { r: 0, g: 0, b: 0 }
}

/// The sky gradient a missing ray sees: a blend of the horizon tint and
/// white, steered by the height of the normalized direction, the blend
/// factor clamped into [0, 1] against normalization rounding. A direction
/// too short to normalize shades black.
#[verifier::opaque]
pub open spec fn sky_i(d: V3i) -> C3i {
    if dot_i(d, d) == 0 {
        black_c()
    } else {
        let u = div_i(d, mag_bits(d));
        let t = clamp01_bits(sat_bits(fx_mul_bits(sat_bits(u.y + FX_ONE as int), 32768)));
        blend_i(
            C3i { r: 16384, g: 32768, b: FX_ONE as int },
            C3i { r: FX_ONE as int, g: FX_ONE as int, b: FX_ONE as int },
            t,
        )
    }
}

/// Every channel sits in [0, 1].
pub open spec fn c_in_range(c: C3i) -> bool {
    0 <= c.r <= FX_ONE as int && 0 <= c.g <= FX_ONE as int && 0 <= c.b <= FX_ONE as int
}

/// A blend of colors with channels in [0, 1] stays representable for any
/// saturated factor.
proof fn lemma_blend_fits(a: int, b: int, f: int)
    requires
        0 <= a <= FX_ONE as int,
        0 <= b <= FX_ONE as int,
        -(FX_SAT as int) <= f <= FX_SAT as int,
    ensures
        in_i64(blend_bits(a, b, f)),
        in_i64(FX_ONE as int - f),
{
    lemma_fx_mul_bound(a, f, 0x1_0000, FX_SAT as int, 0x100_0000_0000);
    lemma_fx_mul_bound(b, FX_ONE as int - f, 0x1_0000, 0x200_0000_0000, 0x200_0000_0000);
}

/// The background color for a ray that hits nothing: always in range.
pub fn sky(d: &Vec3) -> (c: Color)
    requires
        v3_bounded(d@, B_DIR as int),
    ensures
        c@ == sky_i(d@),
        c_in_range(c@),
{
    proof {
        reveal(sky_i);
        lemma_dot_bound(d@, d@, B_DIR as int, B_DIR as int, 0x1_0000_0000_0000);
        lemma_dot_self_nonneg(d@);
    }
    let dw = dot_wide(d, d);
    if dw == 0 {
        return Color::black();
    }
    let u = d.normalize();
    let t = u.y.add_sat(Fx { bits: FX_ONE }).mul_sat(Fx { bits: 32768 }).clamp01();
    proof {
        lemma_blend_fits(16384, FX_ONE as int, t.bits as int);
        lemma_blend_fits(32768, FX_ONE as int, t.bits as int);
        lemma_blend_fits(FX_ONE as int, FX_ONE as int, t.bits as int);
        lemma_blend_range(16384, FX_ONE as int, t.bits as int);
        lemma_blend_range(32768, FX_ONE as int, t.bits as int);
        lemma_blend_range(FX_ONE as int, FX_ONE as int, t.bits as int);
    }
    blend(Color::light_blue(), Color::white(), t)
}

/// Whether every component is small enough to serve as a bounce origin.
fn within_origin(v: &Vec3) -> (b: bool)
    ensures
        b == v3_bounded(v@, B_ORIGIN as int),
{
    -B_ORIGIN <= v.x.bits && v.x.bits <= B_ORIGIN && -B_ORIGIN <= v.y.bits && v.y.bits
        <= B_ORIGIN && -B_ORIGIN <= v.z.bits && v.z.bits <= B_ORIGIN
}

/// Whether every component is small enough to serve as a query direction.
pub fn within_direction(v: &Vec3) -> (b: bool)
    ensures
        b == v3_bounded(v@, B_DIR as int),
{
    -B_DIR <= v.x.bits && v.x.bits <= B_DIR && -B_DIR <= v.y.bits && v.y.bits <= B_DIR
        && -B_DIR <= v.z.bits && v.z.bits <= B_DIR
}

/// What one diffuse bounce makes of a sampled direction: the direction
/// itself, turned into the normal's half-space where it pointed away from
/// it, and the cosine attenuation factor, clamped into [0, 1].
pub open spec fn bounce_dir(normal: V3i, d: V3i) -> V3i {
    if sat_bits(dot_i(normal, d)) < 0 {
        neg_i(d)
    } else {
        d
    }
}

pub open spec fn bounce_att(normal: V3i, d: V3i) -> int {
    clamp01_bits(sat_bits(dot_i(normal, bounce_dir(normal, d))))
}

/// Turn a sampled direction into the bounce direction and its attenuation
/// against the surface normal. This is the whole deterministic part of a
/// diffuse bounce: only the sample itself is random.
pub fn bounce(normal: &Vec3, d: &Vec3) -> (r: (Vec3, Fx))
    requires
        v3_bounded(d@, 0x2_0000),
    ensures
        r.0@ == bounce_dir(normal@, d@),
        r.1.bits == bounce_att(normal@, d@),
{
    let d0 = dot_sat(normal, d);
    let dir = if d0.bits < 0 {
        d.neg()
    } else {
        *d
    };
    let att = dot_sat(normal, &dir).clamp01();
    (dir, att)
}

/// A color scaled channelwise by an attenuation factor.
pub open spec fn attenuate_c(c: C3i, att: int) -> C3i {
    C3i {
        r: sat_bits(fx_mul_bits(c.r, att)),
        g: sat_bits(fx_mul_bits(c.g, att)),
        b: sat_bits(fx_mul_bits(c.b, att)),
    }
}

/// Attenuating an in-range color by an in-range factor stays in range.
proof fn lemma_attenuate_range(c: C3i, att: int)
    requires
        c_in_range(c),
        0 <= att <= FX_ONE as int,
    ensures
        c_in_range(attenuate_c(c, att)),
{
    lemma_att_channel(c.r, att);
    lemma_att_channel(c.g, att);
    lemma_att_channel(c.b, att);
}

proof fn lemma_att_channel(x: int, att: int)
    requires
        0 <= x <= FX_ONE as int,
        0 <= att <= FX_ONE as int,
    ensures
        0 <= sat_bits(fx_mul_bits(x, att)) <= FX_ONE as int,
{
    lemma_fx_mul_bound(x, att, FX_ONE as int, FX_ONE as int, FX_ONE as int);
    assert(x * att >= 0) by (nonlinear_arith)
        requires
            x >= 0,
            att >= 0,
    ;
    lemma_div_pos_is_pos(x * att, FX_ONE as int);
}

/// Every outcome the integrator can produce, whatever the random samples
/// were. A spent budget is black. Otherwise the scene's answer is some
/// nearest hit or a miss: a miss shades the sky; a hit either bounced from
/// a point beyond the origin bound (black), or there was a unit-length
/// sample whose bounce ray's own outcome, attenuated by the bounce cosine,
/// is the result.
#[verifier::opaque]
pub open spec fn ray_color_rel(s: Scene, r: Ray, depth: nat, c: C3i) -> bool
    decreases depth,
{
    if depth == 0 {
        c == black_c()
    } else {
        exists|res: Option<HitSpec>|
            #[trigger] scene_hit_char(s, r, EPS_BITS as int, B_T as int, res) && match res {
                None => c == sky_i(r.direction@),
                Some(h) => exists|d: V3i|
                    #[trigger] unit_dir(d) && if !v3_bounded(h.at, B_ORIGIN as int) {
                        c == black_c()
                    } else {
                        exists|sub: C3i|
                            ray_color_rel(
                                s,
                                Ray {
                                    origin: v3_to_vec(h.at),
                                    direction: v3_to_vec(bounce_dir(h.normal, d)),
                                },
                                (depth - 1) as nat,
                                sub,
                            ) && c == #[trigger] attenuate_c(sub, bounce_att(h.normal, d))
                    },
            }
    }
}

/// A hit whose sample bounced and recursed yields the attenuated
/// sub-result.
#[verifier::rlimit(40)]
proof fn lemma_rel_hit(s: Scene, r: Ray, depth: nat, h: HitSpec, d: V3i, sub: C3i, out: C3i)
    requires
        depth >= 1,
        scene_hit_char(s, r, EPS_BITS as int, B_T as int, Some(h)),
        unit_dir(d),
        v3_bounded(h.at, B_ORIGIN as int),
        ray_color_rel(
            s,
            Ray { origin: v3_to_vec(h.at), direction: v3_to_vec(bounce_dir(h.normal, d)) },
            (depth - 1) as nat,
            sub,
        ),
        out == attenuate_c(sub, bounce_att(h.normal, d)),
    ensures
        ray_color_rel(s, r, depth, out),
{
    reveal(ray_color_rel);
    assert(exists|sub2: C3i|
        ray_color_rel(
            s,
            Ray { origin: v3_to_vec(h.at), direction: v3_to_vec(bounce_dir(h.normal, d)) },
            (depth - 1) as nat,
            sub2,
        ) && out == #[trigger] attenuate_c(sub2, bounce_att(h.normal, d)));
    assert(exists|d2: V3i|
        #[trigger] unit_dir(d2) && if !v3_bounded(h.at, B_ORIGIN as int) {
            out == black_c()
        } else {
            exists|sub2: C3i|
                ray_color_rel(
                    s,
                    Ray {
                        origin: v3_to_vec(h.at),
                        direction: v3_to_vec(bounce_dir(h.normal, d2)),
                    },
                    (depth - 1) as nat,
                    sub2,
                ) && out == #[trigger] attenuate_c(sub2, bounce_att(h.normal, d2))
        });
    assert(exists|res: Option<HitSpec>|
        #[trigger] scene_hit_char(s, r, EPS_BITS as int, B_T as int, res) && match res {
            None => out == sky_i(r.direction@),
            Some(h2) => exists|d2: V3i|
                #[trigger] unit_dir(d2) && if !v3_bounded(h2.at, B_ORIGIN as int) {
                    out == black_c()
                } else {
                    exists|sub2: C3i|
                        ray_color_rel(
                            s,
                            Ray {
                                origin: v3_to_vec(h2.at),
                                direction: v3_to_vec(bounce_dir(h2.normal, d2)),
                            },
                            (depth - 1) as nat,
                            sub2,
                        ) && out == #[trigger] attenuate_c(sub2, bounce_att(h2.normal, d2))
                },
        });
}

/// A hit whose bounce point leaves the origin bound yields black.
proof fn lemma_rel_hit_black(s: Scene, r: Ray, depth: nat, h: HitSpec, d: V3i)
    requires
        depth >= 1,
        scene_hit_char(s, r, EPS_BITS as int, B_T as int, Some(h)),
        unit_dir(d),
        !v3_bounded(h.at, B_ORIGIN as int),
    ensures
        ray_color_rel(s, r, depth, black_c()),
{
    reveal(ray_color_rel);
    assert(exists|d2: V3i|
        #[trigger] unit_dir(d2) && if !v3_bounded(h.at, B_ORIGIN as int) {
            black_c() == black_c()
        } else {
            exists|sub2: C3i|
                ray_color_rel(
                    s,
                    Ray {
                        origin: v3_to_vec(h.at),
                        direction: v3_to_vec(bounce_dir(h.normal, d2)),
                    },
                    (depth - 1) as nat,
                    sub2,
                ) && black_c() == #[trigger] attenuate_c(sub2, bounce_att(h.normal, d2))
        });
}

/// A miss yields exactly the sky gradient.
proof fn lemma_rel_miss(s: Scene, r: Ray, depth: nat)
    requires
        depth >= 1,
        scene_hit_char(s, r, EPS_BITS as int, B_T as int, None::<HitSpec>),
    ensures
        ray_color_rel(s, r, depth, sky_i(r.direction@)),
{
    reveal(ray_color_rel);
}

/// With a single unit of depth budget, a ray that meets any surface shades
/// black, whatever was sampled: the one recursion runs at depth zero and
/// returns black, and black attenuated by any cosine is black.
pub proof fn lemma_one_bounce_black(s: Scene, r: Ray, c: C3i)
    requires
        ray_color_rel(s, r, 1, c),
        !scene_misses(s, r),
    ensures
        c == black_c(),
{
    reveal_with_fuel(ray_color_rel, 2);
    assert forall|a: int| #[trigger] fx_mul_bits(0, a) == 0 by {
        crate::fx::lemma_fx_mul_zero(a);
    }
}

/// The recursive Monte-Carlo integrator. A spent depth budget returns
/// black; a miss returns the sky gradient; a hit bounces once in a random
/// unit direction turned into the surface's outward half-space, recurses,
/// and attenuates the answer by the cosine of the bounce against the
/// normal. Every outcome satisfies ray_color_rel and stays in [0, 1].
pub fn ray_color(r: &Ray, scene: &Scene, depth: u32) -> (c: Color)
    requires
        scene_bounded(*scene),
        ray_bounded(*r),
    ensures
        depth == 0 ==> c@ == black_c(),
        depth > 0 && scene_misses(*scene, *r) ==> c@ == sky_i(r.direction@),
        ray_color_rel(*scene, *r, depth as nat, c@),
        c_in_range(c@),
    decreases depth,
{
    if depth == 0 {
        proof {
            reveal(ray_color_rel);
        }
        return Color::black();
    }
    let t_min = Fx { bits: EPS_BITS };
    let t_max = Fx { bits: B_T };
    match scene.hit_scene(r, t_min, t_max) {
        Some(hi) => {
            let sample = Vec3::random_unit();
            let (direction, att) = bounce(&hi.normal, &sample);
            if !within_origin(&hi.at) {
                proof {
                    lemma_rel_hit_black(*scene, *r, depth as nat, hi@, sample@);
                }
                return Color::black();
            }
            let nr = Ray { origin: hi.at, direction };
            let sub = ray_color(&nr, scene, depth - 1);
            let out = Color {
                r: sub.r.mul_sat(att),
                g: sub.g.mul_sat(att),
                b: sub.b.mul_sat(att),
            };
            proof {
                assert(nr == (Ray {
                    origin: v3_to_vec(hi@.at),
                    direction: v3_to_vec(bounce_dir(hi@.normal, sample@)),
                }));
                assert(out@ == attenuate_c(sub@, bounce_att(hi@.normal, sample@)));
                lemma_attenuate_range(sub@, bounce_att(hi@.normal, sample@));
                lemma_rel_hit(*scene, *r, depth as nat, hi@, sample@, sub@, out@);
            }
            out
        },
        None => {
            proof {
                lemma_rel_miss(*scene, *r, depth as nat);
            }
            sky(&r.direction)
        },
    }
}

/// A quantized 8-bit pixel channel: gamma correction by square root, then
/// scaling to 255.
pub open spec fn quantize_bits(x: int) -> int {
    tdiv(255 * fx_sqrt_bits(clamp01_bits(x)), FX_ONE as int)
}

/// Quantized channels always land in [0, 255].
pub proof fn lemma_quantize_range(x: int)
    ensures
        0 <= quantize_bits(x) <= 255,
{
    let cl = clamp01_bits(x);
    let arg = cl * (FX_ONE as int);
    assert(0 <= cl * 65536 <= 0x1_0000_0000) by (nonlinear_arith)
        requires
            0 <= cl <= 0x1_0000,
    ;
    lemma_isqrt_exists(arg);
    assert(isqrt_ok(arg, isqrt(arg)));
    let s = fx_sqrt_bits(cl);
    assert(s <= 0x1_0000) by (nonlinear_arith)
        requires
            isqrt_ok(arg, s),
            arg <= 0x1_0000_0000,
    ;
    lemma_tdiv_bound(255 * s, FX_ONE as int, 255);
    lemma_div_pos_is_pos(255 * s, FX_ONE as int);
}

/// One 8-bit RGB pixel of the final image.
#[derive(Clone, Copy, PartialEq, Eq, Structural, Debug)]
pub struct Pixel {
    pub r: u8,
    pub g: u8,
    pub b: u8,
}

pub open spec fn pixel_of(c: C3i) -> Pixel {
    Pixel {
        r: quantize_bits(c.r) as u8,
        g: quantize_bits(c.g) as u8,
        b: quantize_bits(c.b) as u8,
    }
}

/// Gamma-correct and quantize one channel.
fn gamma8(x: Fx) -> (v: u8)
    ensures
        v as int == quantize_bits(x.bits as int),
{
    let cl = x.clamp01();
    let s = cl.sqrt();
    proof {
        lemma_isqrt_exists((cl.bits as int) * (FX_ONE as int));
        assert(isqrt_ok(
            (cl.bits as int) * (FX_ONE as int),
            isqrt((cl.bits as int) * (FX_ONE as int)),
        ));
        assert(s.bits as int <= 0x1_0000) by (nonlinear_arith)
            requires
                isqrt_ok((cl.bits as int) * (FX_ONE as int), s.bits as int),
                (cl.bits as int) * (FX_ONE as int) <= 0x1_0000_0000,
        ;
        assert((cl.bits as int) * (FX_ONE as int) <= 0x1_0000_0000) by (nonlinear_arith)
            requires
                0 <= cl.bits as int <= 0x1_0000,
        ;
    }
    let w: i64 = 255 * s.bits / FX_ONE;
    w as u8
}

impl Pixel {
    /// Quantize an accumulated color into an output pixel, clamping each
    /// channel into [0, 1] first, exactly as a saturating cast would.
    pub fn from_color(c: Color) -> (p: Pixel)
        ensures
            p == pixel_of(c@),
    {
        proof {
            lemma_quantize_range(c@.r);
            lemma_quantize_range(c@.g);
            lemma_quantize_range(c@.b);
        }
        Pixel { r: gamma8(c.r), g: gamma8(c.g), b: gamma8(c.b) }
    }
}

/// The image-plane coordinate of one jittered sample: `(k + jitter) /
/// extent`, in saturated fixed point.
pub open spec fn sample_coord(k: int, j: int, extent: int) -> int {
    sat_bits(fx_div_bits(k * (FX_ONE as int) + j, extent * (FX_ONE as int)))
}

/// An admissible color for one sample of pixel (x, y): an integrator
/// outcome for the camera ray through some jittered sub-pixel point, or
/// black where that ray's direction leaves the query bounds.
pub open spec fn sample_ok(
    s: Scene,
    x: int,
    y: int,
    width: int,
    height: int,
    bounces: u32,
    c: C3i,
) -> bool {
    exists|jx: int, jy: int|
        #![trigger sample_coord(x, jx, width), sample_coord(y, jy, height)]
        0 <= jx < FX_ONE as int && 0 <= jy < FX_ONE as int && {
            let dir = camera_ray_dir(
                s.camera,
                sample_coord(x, jx, width),
                sample_coord(y, jy, height),
            );
            if v3_bounded(dir, B_DIR as int) {
                ray_color_rel(
                    s,
                    Ray { origin: s.camera.eye, direction: v3_to_vec(dir) },
                    (bounces + 1) as nat,
                    c,
                )
            } else {
                c == black_c()
            }
        }
}

/// The saturated channelwise sum of a sequence of colors.
pub open spec fn csum_sat(cs: Seq<C3i>) -> C3i
    decreases cs.len(),
{
    if cs.len() == 0 {
        black_c()
    } else {
        let p = csum_sat(cs.drop_last());
        let l = cs.last();
        C3i { r: sat_bits(p.r + l.r), g: sat_bits(p.g + l.g), b: sat_bits(p.b + l.b) }
    }
}

/// The saturated channelwise average of a sum of `n` samples.
pub open spec fn cavg(c: C3i, n: u32) -> C3i {
    C3i {
        r: sat_bits(fx_div_bits(c.r, n as int * (FX_ONE as int))),
        g: sat_bits(fx_div_bits(c.g, n as int * (FX_ONE as int))),
        b: sat_bits(fx_div_bits(c.b, n as int * (FX_ONE as int))),
    }
}

/// What a finished pixel must be: the quantized saturated average of a full
/// set of admissible samples.
pub open spec fn pixel_ok(
    s: Scene,
    x: int,
    y: int,
    width: int,
    height: int,
    samples: u32,
    bounces: u32,
    p: Pixel,
) -> bool {
    exists|cs: Seq<C3i>|
        #![trigger csum_sat(cs)]
        cs.len() == samples && (forall|k: int|
            0 <= k < cs.len() ==> sample_ok(s, x, y, width, height, bounces, #[trigger] cs[k]))
            && p == pixel_of(cavg(csum_sat(cs), samples))
}

/// Render one row of the image: `samples` jittered rays through each pixel,
/// averaged and quantized.
pub fn render_row(scene: &Scene, y: u32, width: u32, height: u32, samples: u32, bounces: u32) -> (
    row: Vec<Pixel>)
    requires
        scene_bounded(*scene),
        1 <= width,
        1 <= height,
        1 <= samples,
        bounces < 0xffff_ffffu32,
    ensures
        row@.len() == width as int,
        forall|x: int|
            0 <= x < width as int ==> pixel_ok(
                *scene,
                x,
                y as int,
                width as int,
                height as int,
                samples,
                bounces,
                #[trigger] row@[x],
            ),
{
    let mut row: Vec<Pixel> = Vec::new();
    let samples_fx = Fx { bits: (samples as i64) * FX_ONE };
    let height_fx = Fx { bits: (height as i64) * FX_ONE };
    let width_fx = Fx { bits: (width as i64) * FX_ONE };
    let mut x: u32 = 0;
    while x < width
        invariant
            scene_bounded(*scene),
            row@.len() == x as int,
            x <= width,
            samples_fx.bits == samples as int * (FX_ONE as int),
            width_fx.bits == width as int * (FX_ONE as int),
            height_fx.bits == height as int * (FX_ONE as int),
            samples_fx.bits != 0,
            width_fx.bits != 0,
            height_fx.bits != 0,
            1 <= samples,
            bounces < 0xffff_ffffu32,
            forall|xx: int|
                0 <= xx < x as int ==> pixel_ok(
                    *scene,
                    xx,
                    y as int,
                    width as int,
                    height as int,
                    samples,
                    bounces,
                    #[trigger] row@[xx],
                ),
        decreases width - x,
    {
        let mut acc = Color::black();
        let ghost mut cs: Seq<C3i> = Seq::empty();
        let mut s: u32 = 0;
        proof {
            assert(acc@ == csum_sat(cs));
        }
        while s < samples
            invariant
                scene_bounded(*scene),
                width_fx.bits == width as int * (FX_ONE as int),
                height_fx.bits == height as int * (FX_ONE as int),
                width_fx.bits != 0,
                height_fx.bits != 0,
                bounces < 0xffff_ffffu32,
                s <= samples,
                cs.len() == s as int,
                acc@ == csum_sat(cs),
                forall|k: int|
                    0 <= k < cs.len() ==> sample_ok(
                        *scene,
                        x as int,
                        y as int,
                        width as int,
                        height as int,
                        bounces,
                        #[trigger] cs[k],
                    ),
            decreases samples - s,
        {
            let jx = crate::rng::random_unit_interval();
            let jy = crate::rng::random_unit_interval();
            let u = Fx { bits: (x as i64) * FX_ONE + jx.bits }.div_sat(width_fx);
            let v = Fx { bits: (y as i64) * FX_ONE + jy.bits }.div_sat(height_fx);
            let ray = scene.camera.ray(u, v);
            let c = if within_direction(&ray.direction) {
                ray_color(&ray, scene, bounces + 1)
            } else {
                Color::black()
            };
            proof {
                assert(u.bits == sample_coord(x as int, jx.bits as int, width as int));
                assert(v.bits == sample_coord(y as int, jy.bits as int, height as int));
                let dir = camera_ray_dir(scene.camera, u.bits as int, v.bits as int);
                if v3_bounded(dir, B_DIR as int) {
                    assert(ray == (Ray {
                        origin: scene.camera.eye,
                        direction: v3_to_vec(dir),
                    }));
                }
                assert(sample_ok(
                    *scene,
                    x as int,
                    y as int,
                    width as int,
                    height as int,
                    bounces,
                    c@,
                ));
                let ghost old_cs = cs;
                cs = cs.push(c@);
                assert(cs.drop_last() =~= old_cs);
                assert(cs.last() == c@);
            }
            acc = Color {
                r: acc.r.add_sat(c.r),
                g: acc.g.add_sat(c.g),
                b: acc.b.add_sat(c.b),
            };
            s = s + 1;
        }
        let avg = Color {
            r: acc.r.div_sat(samples_fx),
            g: acc.g.div_sat(samples_fx),
            b: acc.b.div_sat(samples_fx),
        };
        let pix = Pixel::from_color(avg);
        proof {
            assert(avg@ == cavg(csum_sat(cs), samples));
            assert(pix == pixel_of(cavg(csum_sat(cs), samples)));
            assert(pixel_ok(
                *scene,
                x as int,
                y as int,
                width as int,
                height as int,
                samples,
                bounces,
                pix,
            ));
        }
        row.push(pix);
        x = x + 1;
    }
    row
}

/// Render the whole image: rows from the top down, each pixel at
/// `buf[y * width + x]` — the row-major layout the image encoder expects.
pub fn render(scene: &Scene, width: u32, height: u32, samples: u32, bounces: u32) -> (buf: Vec<
    Pixel>)
    requires
        scene_bounded(*scene),
        1 <= width,
        1 <= height,
        1 <= samples,
        bounces < 0xffff_ffffu32,
    ensures
        buf@.len() == (width as int) * (height as int),
        forall|yy: int, xx: int|
            0 <= yy < height as int && 0 <= xx < width as int ==> pixel_ok(
                *scene,
                xx,
                yy,
                width as int,
                height as int,
                samples,
                bounces,
                #[trigger] buf@[yy * (width as int) + xx],
            ),
{
    let mut buf: Vec<Pixel> = Vec::new();
    let mut y: u32 = 0;
    while y < height
        invariant
            scene_bounded(*scene),
            buf@.len() == (width as int) * (y as int),
            y <= height,
            1 <= width,
            1 <= height,
            1 <= samples,
            bounces < 0xffff_ffffu32,
            forall|yy: int, xx: int|
                0 <= yy < y as int && 0 <= xx < width as int ==> pixel_ok(
                    *scene,
                    xx,
                    yy,
                    width as int,
                    height as int,
                    samples,
                    bounces,
                    #[trigger] buf@[yy * (width as int) + xx],
                ),
        decreases height - y,
    {
        let ghost old_buf = buf@;
        let mut row = render_row(scene, y, width, height, samples, bounces);
        let ghost row_snap = row@;
        buf.append(&mut row);
        proof {
            let w = width as int;
            assert(w * (y as int) + w == w * (y as int + 1)) by (nonlinear_arith);
            assert(w * (y as int) == (y as int) * w) by (nonlinear_arith);
            assert forall|yy: int, xx: int|
                #![trigger buf@[yy * w + xx]]
                0 <= yy < y as int + 1 && 0 <= xx < w implies pixel_ok(
                *scene,
                xx,
                yy,
                width as int,
                height as int,
                samples,
                bounces,
                buf@[yy * w + xx],
            ) by {
                assert(yy * w >= 0) by (nonlinear_arith)
                    requires
                        yy >= 0,
                        w >= 1,
                ;
                if yy < y as int {
                    assert((yy + 1) * w <= (y as int) * w) by (nonlinear_arith)
                        requires
                            yy + 1 <= y as int,
                            w >= 1,
                    ;
                    assert((yy + 1) * w == yy * w + w) by (nonlinear_arith);
                    assert(buf@[yy * w + xx] == old_buf[yy * w + xx]);
                } else {
                    assert(yy == y as int);
                    assert((y as int) * w == w * (y as int)) by (nonlinear_arith);
                    assert(buf@[yy * w + xx] == row_snap[xx]);
                }
            }
        }
        y = y + 1;
    }
    buf
}

} // verus!
