use rs_trace::fx::{Fx, FX_ONE};
use rs_trace::vec3::Vec3;
use rs_trace::geometry::{Ray, Sphere, Plane, Hittable};
use rs_trace::scene::{Scene, Surface};
use rs_trace::camera::Camera;

fn v(x: i32, y: i32, z: i32) -> Vec3 {
    Vec3::new(Fx::of_int(x), Fx::of_int(y), Fx::of_int(z))
}

fn window() -> (Fx, Fx) {
    (Fx::from_bits(1), Fx::of_int(100000))
}

fn dummy_camera() -> Camera {
    Camera { eye: v(0, 0, 0), horizontal: v(1, 0, 0), vertical: v(0, 1, 0), upper_left: v(0, 0, 1) }
}

#[test]
fn sphere_hit_from_outside_at_distance_minus_radius() {
    let s = Sphere { center: v(0, 0, 3), radius: Fx::of_int(1) };
    let r = Ray { origin: v(0, 0, 0), direction: v(0, 0, 1) };
    let (t_min, t_max) = window();
    let h = s.hit_sphere(&r, t_min, t_max).expect("must hit");
    assert_eq!(h.t.bits, 2 * FX_ONE);
    assert_eq!(h.at, v(0, 0, 2));
    assert_eq!(h.normal, v(0, 0, -1));
}

#[test]
fn sphere_missed_with_offset_beyond_radius() {
    let s = Sphere { center: v(0, 0, 3), radius: Fx::of_int(1) };
    let r = Ray { origin: v(0, 2, 0), direction: v(0, 0, 1) };
    let (t_min, t_max) = window();
    assert!(s.hit_sphere(&r, t_min, t_max).is_none());
}

#[test]
fn sphere_hit_from_inside_returns_far_intersection() {
    let s = Sphere { center: v(0, 0, 3), radius: Fx::of_int(1) };
    let r = Ray { origin: v(0, 0, 3), direction: v(0, 0, 1) };
    let (t_min, t_max) = window();
    let h = s.hit_sphere(&r, t_min, t_max).expect("must hit");
    assert_eq!(h.t.bits, FX_ONE);
    assert_eq!(h.at, v(0, 0, 4));
}

#[test]
fn plane_parallel_ray_misses() {
    let p = Plane { point: v(0, 0, 0), normal: v(0, 1, 0) };
    let r = Ray { origin: v(0, 1, 0), direction: v(1, 0, 0) };
    let (t_min, t_max) = window();
    assert!(p.hit_plane(&r, t_min, t_max).is_none());
}

#[test]
fn plane_hit_straight_down_at_unit_distance() {
    let p = Plane { point: v(0, 0, 0), normal: v(0, 1, 0) };
    let r = Ray { origin: v(0, 1, 0), direction: v(0, -1, 0) };
    let (t_min, t_max) = window();
    let h = p.hit_plane(&r, t_min, t_max).expect("must hit");
    assert_eq!(h.t.bits, FX_ONE);
    assert_eq!(h.at, v(0, 0, 0));
    assert_eq!(h.normal, v(0, 1, 0));
}

#[test]
fn scene_returns_nearest_of_two_spheres_either_order() {
    let near = Surface::Sphere(Sphere { center: v(0, 0, 3), radius: Fx::of_int(1) });
    let far = Surface::Sphere(Sphere { center: v(0, 0, 6), radius: Fx::of_int(1) });
    let r = Ray { origin: v(0, 0, 0), direction: v(0, 0, 1) };
    let (t_min, t_max) = window();
    for surfaces in [vec![near, far], vec![far, near]] {
        let scene = Scene { surfaces, camera: dummy_camera() };
        let h = scene.hit_scene(&r, t_min, t_max).expect("must hit");
        assert_eq!(h.t.bits, 2 * FX_ONE);
    }
}

#[test]
fn scene_with_no_surfaces_misses() {
    let scene = Scene { surfaces: vec![], camera: dummy_camera() };
    let r = Ray { origin: v(0, 0, 0), direction: v(0, 0, 1) };
    let (t_min, t_max) = window();
    assert!(scene.hit_scene(&r, t_min, t_max).is_none());
}

#[test]
fn hit_through_the_shared_protocol() {
    let s = Sphere { center: v(0, 0, 3), radius: Fx::of_int(1) };
    let p = Plane { point: v(0, 0, 10), normal: v(0, 0, 1) };
    let r = Ray { origin: v(0, 0, 0), direction: v(0, 0, 1) };
    let (t_min, t_max) = window();
    assert_eq!(s.hit(&r, t_min, t_max).unwrap().t.bits, 2 * FX_ONE);
    assert_eq!(p.hit(&r, t_min, t_max).unwrap().t.bits, 10 * FX_ONE);
    let scene = Scene { surfaces: vec![Surface::Sphere(s), Surface::Plane(p)], camera: dummy_camera() };
    assert_eq!(scene.hit(&r, t_min, t_max).unwrap().t.bits, 2 * FX_ONE);
}
