use rs_trace::fx::{Fx, FX_ONE};
use rs_trace::vec3::{Vec3, dot, cross};
use rs_trace::color::{Color, blend};

fn v(x: i32, y: i32, z: i32) -> Vec3 {
    Vec3::new(Fx::of_int(x), Fx::of_int(y), Fx::of_int(z))
}

#[test]
fn dot_is_symmetric() {
    let u = v(1, 2, 3);
    let w = v(4, 5, 6);
    assert_eq!(dot(u, w).bits, dot(w, u).bits);
    assert_eq!(dot(u, w).bits, 32 * FX_ONE);
}

#[test]
fn cross_is_antisymmetric() {
    let u = v(1, 2, 3);
    let w = v(4, 5, 6);
    let c1 = cross(u, w);
    let c2 = cross(w, u).neg();
    assert_eq!(c1, c2);
    assert_eq!(c1.x.bits, -3 * FX_ONE);
    assert_eq!(c1.y.bits, 6 * FX_ONE);
    assert_eq!(c1.z.bits, -3 * FX_ONE);
}

#[test]
fn normalize_has_unit_magnitude() {
    for w in [v(3, 0, 4), v(1, 1, 1), v(-7, 2, 26), v(0, 0, 1)] {
        let n = w.normalize();
        let m = n.magnitude();
        assert!((m.bits - FX_ONE).abs() <= 16, "magnitude {}", m.bits);
    }
}

#[test]
fn explicit_division_by_magnitude_gives_unit_vector() {
    let w = v(3, 0, 4);
    let m = w.magnitude();
    assert_eq!(m.bits, 5 * FX_ONE);
    let n = w.div(m);
    assert_eq!(n, w.normalize());
    let mn = n.magnitude();
    assert!((mn.bits - FX_ONE).abs() <= 16);
}

#[test]
fn blend_at_zero_gives_second_color() {
    let a = Color::light_blue();
    let b = Color::white();
    assert_eq!(blend(a, b, Fx::zero()), b);
}

#[test]
fn blend_at_one_gives_first_color() {
    let a = Color::light_blue();
    let b = Color::white();
    assert_eq!(blend(a, b, Fx::one()), a);
}

#[test]
fn blend_at_half_is_the_midpoint() {
    let a = Color::light_blue();
    let b = Color::white();
    let mid = blend(a, b, Fx::from_bits(32768));
    for (m, (x, y)) in [
        (mid.r.bits, (a.r.bits, b.r.bits)),
        (mid.g.bits, (a.g.bits, b.g.bits)),
        (mid.b.bits, (a.b.bits, b.b.bits)),
    ] {
        assert!((2 * m - (x + y)).abs() <= 2);
    }
    assert_eq!(mid.r.bits, (16384 + 65536) / 2);
}

#[test]
fn sqrt_of_exact_squares() {
    assert_eq!(Fx::of_int(4).sqrt().bits, 2 * FX_ONE);
    assert_eq!(Fx::of_int(9).sqrt().bits, 3 * FX_ONE);
    assert_eq!(Fx::from_bits(16384).sqrt().bits, 32768);
    assert_eq!(Fx::zero().sqrt().bits, 0);
}

#[test]
fn scalar_arithmetic_rounds_toward_zero() {
    let a = Fx::from_bits(3);
    let half = Fx::from_bits(32768);
    assert_eq!(a.mul(half).bits, 1);
    assert_eq!(a.neg().mul(half).bits, -1);
    assert_eq!(Fx::of_int(1).div(Fx::of_int(3)).bits, 21845);
    assert_eq!(Fx::of_int(-1).div(Fx::of_int(3)).bits, -21845);
}

#[test]
fn vector_arithmetic_componentwise() {
    let u = v(1, 2, 3);
    let w = v(4, 5, 6);
    assert_eq!(u.add(w), v(5, 7, 9));
    assert_eq!(w.sub(u), v(3, 3, 3));
    assert_eq!(u.neg(), v(-1, -2, -3));
    assert_eq!(u.mul(Fx::of_int(2)), v(2, 4, 6));
    assert_eq!(v(2, 4, 6).div(Fx::of_int(2)), v(1, 2, 3));
}

#[test]
fn color_arithmetic_componentwise() {
    let a = Color::new(Fx::of_int(1), Fx::of_int(2), Fx::of_int(3));
    let b = Color::new(Fx::of_int(2), Fx::of_int(2), Fx::of_int(2));
    let sum = a.add(b);
    assert_eq!((sum.r.bits, sum.g.bits, sum.b.bits), (3 * FX_ONE, 4 * FX_ONE, 5 * FX_ONE));
    let prod = a.mul(b);
    assert_eq!((prod.r.bits, prod.g.bits, prod.b.bits), (2 * FX_ONE, 4 * FX_ONE, 6 * FX_ONE));
    let scaled = a.scale(Fx::from_bits(32768));
    assert_eq!(scaled.r.bits, 32768);
    let halved = a.div(Fx::of_int(2));
    assert_eq!(halved.g.bits, FX_ONE);
    assert_eq!(Color::black().r.bits, 0);
    assert_eq!(Color::white().g.bits, FX_ONE);
}
