use rs_trace::fx::{Fx, FX_ONE};
use rs_trace::vec3::{Vec3, dot};
use rs_trace::color::Color;
use rs_trace::geometry::Ray;
use rs_trace::scene::Scene;
use rs_trace::camera::Camera;
use rs_trace::trace::{ray_color, render, render_row, Pixel};
use rs_trace::parse::parse_scene;

fn v(x: i32, y: i32, z: i32) -> Vec3 {
    Vec3::new(Fx::of_int(x), Fx::of_int(y), Fx::of_int(z))
}

fn ground_scene() -> Scene {
    parse_scene(b"p 0 -1 0 0 1 0\n", Fx::of_int(1), None, None).expect("must parse")
}

#[test]
fn depth_zero_is_black_everywhere() {
    let scene = ground_scene();
    let rays = [
        Ray { origin: v(0, 0, 0), direction: v(0, -1, 0) },
        Ray { origin: v(5, 3, -2), direction: v(0, 1, 0) },
        Ray { origin: v(0, 0, 0), direction: v(0, 0, 0) },
    ];
    for r in rays {
        assert_eq!(ray_color(&r, &scene, 0), Color::black());
    }
}

#[test]
fn one_bounce_budget_shades_a_plane_hit_black() {
    let scene = ground_scene();
    let r = Ray { origin: v(0, 0, 0), direction: v(0, -1, 0) };
    assert_eq!(ray_color(&r, &scene, 1), Color::black());
}

#[test]
fn two_bounce_budget_yields_attenuated_light() {
    let scene = ground_scene();
    let r = Ray { origin: v(0, 0, 0), direction: v(0, -1, 0) };
    let mut some_light = false;
    let mut attenuated = true;
    for _ in 0..64 {
        let c = ray_color(&r, &scene, 2);
        if c.r.bits > 0 || c.g.bits > 0 || c.b.bits > 0 {
            some_light = true;
        }
        // the single bounce sees at most the sky, scaled by a cosine
        if c.r.bits > FX_ONE || c.g.bits > FX_ONE || c.b.bits > FX_ONE {
            attenuated = false;
        }
    }
    assert!(some_light);
    assert!(attenuated);
}

#[test]
fn a_miss_shades_the_sky_gradient() {
    let scene = ground_scene();
    let up = Ray { origin: v(0, 0, 0), direction: v(0, 1, 0) };
    let c = ray_color(&up, &scene, 3);
    // straight up: the zenith end of the blend, the horizon tint itself
    assert!((c.r.bits - 16384).abs() <= 64, "r {}", c.r.bits);
    assert!((c.g.bits - 32768).abs() <= 64, "g {}", c.g.bits);
    assert!((c.b.bits - FX_ONE).abs() <= 64, "b {}", c.b.bits);
}

#[test]
fn pixels_quantize_with_square_root_gamma() {
    let white = Pixel::from_color(Color::white());
    assert_eq!((white.r, white.g, white.b), (255, 255, 255));
    let black = Pixel::from_color(Color::black());
    assert_eq!((black.r, black.g, black.b), (0, 0, 0));
    let quarter = Pixel::from_color(Color::new(
        Fx::from_bits(16384),
        Fx::from_bits(16384),
        Fx::from_bits(16384),
    ));
    assert_eq!(quarter.r, 127);
    let over = Pixel::from_color(Color::new(Fx::of_int(7), Fx::of_int(-3), Fx::zero()));
    assert_eq!((over.r, over.g, over.b), (255, 0, 0));
}

#[test]
fn render_fills_the_whole_buffer() {
    let scene = ground_scene();
    let buf = render(&scene, 4, 3, 1, 1);
    assert_eq!(buf.len(), 12);
    let row = render_row(&scene, 0, 5, 3, 2, 1);
    assert_eq!(row.len(), 5);
}

#[test]
fn camera_rays_span_the_viewport() {
    let cam = Camera {
        eye: v(0, 0, 0),
        horizontal: v(4, 0, 0),
        vertical: v(0, 2, 0),
        upper_left: v(-2, -1, 3),
    };
    let center = cam.ray(Fx::from_bits(32768), Fx::from_bits(32768));
    assert_eq!(center.origin, v(0, 0, 0));
    assert_eq!(center.direction, v(0, 0, 3));
    let corner = cam.ray(Fx::zero(), Fx::one());
    assert_eq!(corner.direction, v(-2, -1, 3));
}

#[test]
fn constructed_camera_matches_the_viewport_formulas() {
    let cam = Camera::new(
        v(0, 0, 0),
        v(0, 0, 3),
        v(0, 1, 0),
        Fx::of_int(90),
        Fx::of_int(1),
        None,
    )
    .expect("not degenerate");
    // tan(45 degrees) = 1: viewport is 6 by 6 around the look direction
    assert!((cam.vertical.y.bits - 6 * FX_ONE).abs() <= 2000, "vy {}", cam.vertical.y.bits);
    assert!((cam.horizontal.x.bits + 6 * FX_ONE).abs() <= 2000, "hx {}", cam.horizontal.x.bits);
    assert_eq!(cam.eye, v(0, 0, 0));
    // the centre ray points straight at the target
    let c = cam.ray(Fx::from_bits(32768), Fx::from_bits(32768));
    assert!(c.direction.x.bits.abs() <= 2000);
    assert!(c.direction.y.bits.abs() <= 2000);
    assert!((c.direction.z.bits - 3 * FX_ONE).abs() <= 2000);
}

#[test]
fn camera_looking_along_its_up_hint_is_degenerate() {
    let r = Camera::new(v(0, 0, 0), v(0, 3, 0), v(0, 1, 0), Fx::of_int(30), Fx::of_int(1), None);
    assert!(r.is_none());
}

#[test]
fn random_ball_points_stay_inside_the_unit_ball() {
    for _ in 0..200 {
        let b = Vec3::random_unit_ball();
        assert!(dot(b, b).bits < FX_ONE);
        assert!(b.x.bits.abs() <= FX_ONE);
    }
}

#[test]
fn random_unit_directions_have_unit_length() {
    for _ in 0..200 {
        let u = Vec3::random_unit();
        let m = u.magnitude();
        assert!((m.bits - FX_ONE).abs() <= 1024, "magnitude {}", m.bits);
    }
}

#[test]
fn sphere_scene_end_to_end_renders_plausible_sky_and_object() {
    let scene = parse_scene(b"s 0 0 3 1\n", Fx::of_int(1), None, None).expect("must parse");
    let buf = render(&scene, 8, 8, 2, 2);
    assert_eq!(buf.len(), 64);
    // blue dominates everywhere the sky shows, directly or off the sphere
    assert!(buf.iter().any(|p| p.b > 100));
}
