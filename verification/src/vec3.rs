use vstd::prelude::*;
use vstd::arithmetic::div_mod::{lemma_div_pos_is_pos, lemma_fundamental_div_mod, lemma_mod_division_less_than_divisor};
use vstd::arithmetic::mul::lemma_mul_is_commutative;
use crate::fx::{Fx, FX_ONE, fx_mul_bits, fx_div_bits, fx_sqrt_bits, sat_bits, in_i64, lemma_fx_mul_bound, lemma_mul_abs_bound, lemma_tdiv_bound, fx_saturate};

verus! {

/// A three-component vector of fixed-point scalars.
#[derive(Clone, Copy, PartialEq, Eq, Structural, Debug)]
pub struct Vec3 {
    pub x: Fx,
    pub y: Fx,
    pub z: Fx,
}

/// The mathematical view of a vector: its three raw bit counts.
pub struct V3i {
    pub x: int,
    pub y: int,
    pub z: int,
}

impl View for Vec3 {
    type V = V3i;

    open spec fn view(&self) -> V3i {
        V3i { x: self.x.bits as int, y: self.y.bits as int, z: self.z.bits as int }
    }
}

pub open spec fn add_i(a: V3i, b: V3i) -> V3i {
    V3i { x: a.x + b.x, y: a.y + b.y, z: a.z + b.z }
}

pub open spec fn sub_i(a: V3i, b: V3i) -> V3i {
    V3i { x: a.x - b.x, y: a.y - b.y, z: a.z - b.z }
}

pub open spec fn neg_i(a: V3i) -> V3i {
    V3i { x: -a.x, y: -a.y, z: -a.z }
}

/// Scaling by a fixed-point factor, with the product rounding of each component.
pub open spec fn scale_i(a: V3i, s: int) -> V3i {
    V3i {
        x: fx_mul_bits(a.x, s),
        y: fx_mul_bits(a.y, s),
        z: fx_mul_bits(a.z, s),
    }
}

/// Dividing each component by a fixed-point scalar.
pub open spec fn div_i(a: V3i, s: int) -> V3i {
    V3i {
        x: fx_div_bits(a.x, s),
        y: fx_div_bits(a.y, s),
        z: fx_div_bits(a.z, s),
    }
}

/// The fixed-point dot product.
pub open spec fn dot_i(a: V3i, b: V3i) -> int {
    fx_mul_bits(a.x, b.x) + fx_mul_bits(a.y, b.y) + fx_mul_bits(a.z, b.z)
}

/// The fixed-point cross product.
pub open spec fn cross_i(a: V3i, b: V3i) -> V3i {
    V3i {
        x: fx_mul_bits(a.y, b.z) - fx_mul_bits(a.z, b.y),
        y: fx_mul_bits(a.z, b.x) - fx_mul_bits(a.x, b.z),
        z: fx_mul_bits(a.x, b.y) - fx_mul_bits(a.y, b.x),
    }
}

/// The bits of a vector's magnitude: the square root of its self dot product.
pub open spec fn mag_bits(a: V3i) -> int {
    fx_sqrt_bits(dot_i(a, a))
}

/// Every component's magnitude is at most `b`.
pub open spec fn v3_bounded(a: V3i, b: int) -> bool {
    -b <= a.x <= b && -b <= a.y <= b && -b <= a.z <= b
}

/// The dot product of two vectors does not depend on their order.
pub proof fn lemma_dot_symmetric(u: V3i, v: V3i)
    ensures
        dot_i(u, v) == dot_i(v, u),
{
    lemma_mul_is_commutative(u.x, v.x);
    lemma_mul_is_commutative(u.y, v.y);
    lemma_mul_is_commutative(u.z, v.z);
}

/// Swapping the arguments of the cross product negates it.
pub proof fn lemma_cross_antisymmetric(u: V3i, v: V3i)
    ensures
        cross_i(u, v) == neg_i(cross_i(v, u)),
{
    lemma_mul_is_commutative(u.x, v.x);
    lemma_mul_is_commutative(u.y, v.y);
    lemma_mul_is_commutative(u.z, v.z);
    lemma_mul_is_commutative(u.x, v.y);
    lemma_mul_is_commutative(u.y, v.x);
    lemma_mul_is_commutative(u.x, v.z);
    lemma_mul_is_commutative(u.z, v.x);
    lemma_mul_is_commutative(u.y, v.z);
    lemma_mul_is_commutative(u.z, v.y);
}

/// A vector's dot product with itself is never negative.
pub proof fn lemma_dot_self_nonneg(v: V3i)
    ensures
        dot_i(v, v) >= 0,
{
    lemma_fx_sq_nonneg(v.x);
    lemma_fx_sq_nonneg(v.y);
    lemma_fx_sq_nonneg(v.z);
}

/// A fixed-point square is never negative.
pub proof fn lemma_fx_sq_nonneg(a: int)
    ensures
        fx_mul_bits(a, a) >= 0,
{
    assert(a * a >= 0) by (nonlinear_arith);
    lemma_div_pos_is_pos(a * a, FX_ONE as int);
}

/// Componentwise bounds give a bound on the dot product.
pub proof fn lemma_dot_bound(u: V3i, v: V3i, ub: int, vb: int, m: int)
    requires
        v3_bounded(u, ub),
        v3_bounded(v, vb),
        m >= 0,
        ub * vb <= m * (FX_ONE as int),
    ensures
        -3 * m <= dot_i(u, v) <= 3 * m,
{
    lemma_fx_mul_bound(u.x, v.x, ub, vb, m);
    lemma_fx_mul_bound(u.y, v.y, ub, vb, m);
    lemma_fx_mul_bound(u.z, v.z, ub, vb, m);
}

impl Vec3 {
    pub fn new(x: Fx, y: Fx, z: Fx) -> (r: Vec3)
        ensures
            r@ == (V3i { x: x.bits as int, y: y.bits as int, z: z.bits as int }),
    {
        Vec3 { x, y, z }
    }

    pub fn zero() -> (r: Vec3)
        ensures
            r@ == (V3i { x: 0, y: 0, z: 0 }),
    {
        Vec3 { x: Fx { bits: 0 }, y: Fx { bits: 0 }, z: Fx { bits: 0 } }
    }

    pub fn add(self, o: Vec3) -> (r: Vec3)
        requires
            in_i64(self@.x + o@.x),
            in_i64(self@.y + o@.y),
            in_i64(self@.z + o@.z),
        ensures
            r@ == add_i(self@, o@),
    {
        Vec3 { x: self.x.add(o.x), y: self.y.add(o.y), z: self.z.add(o.z) }
    }

    pub fn sub(self, o: Vec3) -> (r: Vec3)
        requires
            in_i64(self@.x - o@.x),
            in_i64(self@.y - o@.y),
            in_i64(self@.z - o@.z),
        ensures
            r@ == sub_i(self@, o@),
    {
        Vec3 { x: self.x.sub(o.x), y: self.y.sub(o.y), z: self.z.sub(o.z) }
    }

    pub fn neg(self) -> (r: Vec3)
        requires
            in_i64(-self@.x),
            in_i64(-self@.y),
            in_i64(-self@.z),
        ensures
            r@ == neg_i(self@),
    {
        Vec3 { x: self.x.neg(), y: self.y.neg(), z: self.z.neg() }
    }

    /// Scale by a fixed-point factor.
    pub fn mul(self, s: Fx) -> (r: Vec3)
        requires
            in_i64(fx_mul_bits(self@.x, s.bits as int)),
            in_i64(fx_mul_bits(self@.y, s.bits as int)),
            in_i64(fx_mul_bits(self@.z, s.bits as int)),
        ensures
            r@ == scale_i(self@, s.bits as int),
    {
        Vec3 { x: self.x.mul(s), y: self.y.mul(s), z: self.z.mul(s) }
    }

    /// Divide each component by a fixed-point scalar.
    pub fn div(self, s: Fx) -> (r: Vec3)
        requires
            s.bits != 0,
            in_i64(fx_div_bits(self@.x, s.bits as int)),
            in_i64(fx_div_bits(self@.y, s.bits as int)),
            in_i64(fx_div_bits(self@.z, s.bits as int)),
        ensures
            r@ == div_i(self@, s.bits as int),
    {
        Vec3 { x: self.x.div(s), y: self.y.div(s), z: self.z.div(s) }
    }
}

/// Componentwise saturation of a view.
pub open spec fn sat_v(a: V3i) -> V3i {
    V3i { x: sat_bits(a.x), y: sat_bits(a.y), z: sat_bits(a.z) }
}

impl Vec3 {
    /// Saturating vector sum.
    pub fn add_sat(self, o: Vec3) -> (r: Vec3)
        ensures
            r@ == sat_v(add_i(self@, o@)),
    {
        Vec3 { x: self.x.add_sat(o.x), y: self.y.add_sat(o.y), z: self.z.add_sat(o.z) }
    }

    /// Saturating vector difference.
    pub fn sub_sat(self, o: Vec3) -> (r: Vec3)
        ensures
            r@ == sat_v(sub_i(self@, o@)),
    {
        Vec3 { x: self.x.sub_sat(o.x), y: self.y.sub_sat(o.y), z: self.z.sub_sat(o.z) }
    }

    /// Saturating negation.
    pub fn neg_sat(self) -> (r: Vec3)
        ensures
            r@ == sat_v(neg_i(self@)),
    {
        Vec3 { x: self.x.neg_sat(), y: self.y.neg_sat(), z: self.z.neg_sat() }
    }

    /// Saturating scale by a fixed-point factor.
    pub fn mul_sat(self, s: Fx) -> (r: Vec3)
        ensures
            r@ == sat_v(scale_i(self@, s.bits as int)),
    {
        Vec3 { x: self.x.mul_sat(s), y: self.y.mul_sat(s), z: self.z.mul_sat(s) }
    }

    /// Saturating division by a fixed-point scalar.
    pub fn div_sat(self, s: Fx) -> (r: Vec3)
        requires
            s.bits != 0,
        ensures
            r@ == sat_v(div_i(self@, s.bits as int)),
    {
        Vec3 { x: self.x.div_sat(s), y: self.y.div_sat(s), z: self.z.div_sat(s) }
    }
}

/// The saturated dot product of two vectors, total on all inputs.
pub fn dot_sat(u: &Vec3, v: &Vec3) -> (r: Fx)
    ensures
        r.bits == sat_bits(dot_i(u@, v@)),
{
    let w = dot_wide(u, v);
    fx_saturate(w)
}

/// The saturated cross product of two vectors, total on all inputs.
pub fn cross_sat(u: &Vec3, v: &Vec3) -> (r: Vec3)
    ensures
        r@ == sat_v(cross_i(u@, v@)),
{
    proof {
        lemma_wide_term_bound(u@.y, v@.z);
        lemma_wide_term_bound(u@.z, v@.y);
        lemma_wide_term_bound(u@.z, v@.x);
        lemma_wide_term_bound(u@.x, v@.z);
        lemma_wide_term_bound(u@.x, v@.y);
        lemma_wide_term_bound(u@.y, v@.x);
    }
    let cx: i128 = (u.y.bits as i128) * (v.z.bits as i128) / (FX_ONE as i128)
        - (u.z.bits as i128) * (v.y.bits as i128) / (FX_ONE as i128);
    let cy: i128 = (u.z.bits as i128) * (v.x.bits as i128) / (FX_ONE as i128)
        - (u.x.bits as i128) * (v.z.bits as i128) / (FX_ONE as i128);
    let cz: i128 = (u.x.bits as i128) * (v.y.bits as i128) / (FX_ONE as i128)
        - (u.y.bits as i128) * (v.x.bits as i128) / (FX_ONE as i128);
    Vec3 { x: fx_saturate(cx), y: fx_saturate(cy), z: fx_saturate(cz) }
}

/// The dot product, wide enough that no intermediate can overflow.
pub fn dot_wide(u: &Vec3, v: &Vec3) -> (r: i128)
    ensures
        r as int == dot_i(u@, v@),
{
    proof {
        lemma_wide_term_bound(u@.x, v@.x);
        lemma_wide_term_bound(u@.y, v@.y);
        lemma_wide_term_bound(u@.z, v@.z);
    }
    let tx: i128 = (u.x.bits as i128) * (v.x.bits as i128) / (FX_ONE as i128);
    let ty: i128 = (u.y.bits as i128) * (v.y.bits as i128) / (FX_ONE as i128);
    let tz: i128 = (u.z.bits as i128) * (v.z.bits as i128) / (FX_ONE as i128);
    tx + ty + tz
}

/// A fixed-point product of two scalar-range factors stays far inside the
/// wide integer range.
pub proof fn lemma_wide_term_bound(a: int, b: int)
    requires
        in_i64(a),
        in_i64(b),
    ensures
        -0x4000_0000_0000_0000_0000_0000_0000_0000 <= a * b
            <= 0x4000_0000_0000_0000_0000_0000_0000_0000,
        -0x4000_0000_0000_0000_0000_0000_0000 <= fx_mul_bits(a, b)
            <= 0x4000_0000_0000_0000_0000_0000_0000,
{
    lemma_mul_abs_bound(a, b, 0x8000_0000_0000_0000, 0x8000_0000_0000_0000);
    lemma_tdiv_bound(a * b, FX_ONE as int, 0x4000_0000_0000_0000_0000_0000_0000);
}

/// From a bounded fixed-point square, a bound on the squared value itself.
proof fn lemma_sq_from_fx(c: int, m: int)
    requires
        0 <= m,
        fx_mul_bits(c, c) <= m,
    ensures
        c * c <= (m + 1) * (FX_ONE as int),
{
    assert(c * c >= 0) by (nonlinear_arith);
    lemma_fundamental_div_mod(c * c, FX_ONE as int);
    lemma_mod_division_less_than_divisor(c * c, FX_ONE as int);
    assert((c * c) / (FX_ONE as int) <= m);
    assert(c * c == (FX_ONE as int) * ((c * c) / (FX_ONE as int)) + (c * c) % (FX_ONE as int));
    assert((FX_ONE as int) * ((c * c) / (FX_ONE as int)) <= (FX_ONE as int) * m)
        by (nonlinear_arith)
        requires
            (c * c) / (FX_ONE as int) <= m,
    ;
    assert((FX_ONE as int) * m == m * (FX_ONE as int)) by (nonlinear_arith);
}

/// A representable self dot product bounds every component.
pub proof fn lemma_comp_bound_from_dot(v: V3i)
    requires
        dot_i(v, v) <= 0x7fff_ffff_ffff_ffff,
    ensures
        v3_bounded(v, 0x200_0000_0000),
{
    lemma_fx_sq_nonneg(v.x);
    lemma_fx_sq_nonneg(v.y);
    lemma_fx_sq_nonneg(v.z);
    lemma_sq_from_fx(v.x, 0x7fff_ffff_ffff_ffff);
    lemma_sq_from_fx(v.y, 0x7fff_ffff_ffff_ffff);
    lemma_sq_from_fx(v.z, 0x7fff_ffff_ffff_ffff);
    assert(v.x * v.x <= 0x8000_0000_0000_0000int * 0x1_0000 ==> -0x200_0000_0000 <= v.x
        <= 0x200_0000_0000) by (nonlinear_arith);
    assert(v.y * v.y <= 0x8000_0000_0000_0000int * 0x1_0000 ==> -0x200_0000_0000 <= v.y
        <= 0x200_0000_0000) by (nonlinear_arith);
    assert(v.z * v.z <= 0x8000_0000_0000_0000int * 0x1_0000 ==> -0x200_0000_0000 <= v.z
        <= 0x200_0000_0000) by (nonlinear_arith);
}

/// A self dot product of at least one fixed-point step has a magnitude of at
/// least 1/256.
pub proof fn lemma_mag_lower(v: V3i)
    requires
        dot_i(v, v) >= 1,
    ensures
        mag_bits(v) >= 256,
{
    let d = dot_i(v, v);
    let arg = d * (FX_ONE as int);
    crate::fx::lemma_isqrt_exists(arg);
    assert(crate::fx::isqrt_ok(arg, crate::fx::isqrt(arg)));
    assert(d * 65536 >= 65536) by (nonlinear_arith)
        requires
            d >= 1,
    ;
    assert(crate::fx::isqrt(arg) >= 256) by (nonlinear_arith)
        requires
            crate::fx::isqrt_ok(arg, crate::fx::isqrt(arg)),
            arg >= 65536,
    ;
}

impl Vec3 {
    /// The Euclidean length of the vector.
    pub fn magnitude(&self) -> (r: Fx)
        requires
            in_i64(dot_i(self@, self@)),
        ensures
            r.bits == mag_bits(self@),
    {
        proof {
            lemma_dot_self_nonneg(self@);
        }
        let d = dot(*self, *self);
        d.sqrt()
    }

    /// The vector scaled to length one: `self / magnitude(self)`. The caller
    /// keeps zero-length vectors away, as the quotient would be undefined.
    pub fn normalize(&self) -> (r: Vec3)
        requires
            in_i64(dot_i(self@, self@)),
            dot_i(self@, self@) >= 1,
        ensures
            r@ == div_i(self@, mag_bits(self@)),
            v3_bounded(r@, 0x2_0000_0000_0000),
    {
        proof {
            lemma_dot_self_nonneg(self@);
            lemma_comp_bound_from_dot(self@);
            lemma_mag_lower(self@);
        }
        let m = self.magnitude();
        proof {
            lemma_norm_div_fits(self@.x, m.bits as int);
            lemma_norm_div_fits(self@.y, m.bits as int);
            lemma_norm_div_fits(self@.z, m.bits as int);
        }
        self.div(m)
    }
}

impl Vec3 {
    /// A uniformly distributed point of the open unit ball, by rejection
    /// sampling of the enclosing cube; a fixed axis point is the fallback
    /// when every bounded attempt was rejected.
    pub fn random_unit_ball() -> (v: Vec3)
        ensures
            dot_i(v@, v@) < FX_ONE as int,
            v3_bounded(v@, FX_ONE as int),
    {
        let mut tries: u32 = 64;
        while tries > 0
            invariant
                true,
            decreases tries,
        {
            let v = Vec3 {
                x: crate::rng::random_symmetric(),
                y: crate::rng::random_symmetric(),
                z: crate::rng::random_symmetric(),
            };
            let w = dot_wide(&v, &v);
            if w < FX_ONE as i128 {
                return v;
            }
            tries = tries - 1;
        }
        let v = Vec3 { x: Fx { bits: 32768 }, y: Fx { bits: 0 }, z: Fx { bits: 0 } };
        proof {
            lemma_ball_fallback();
        }
        v
    }

    /// A uniformly distributed unit-length direction: a ball point, scaled
    /// to length one. Points too short to normalize with any precision are
    /// rejected along with those outside the ball.
    pub fn random_unit() -> (v: Vec3)
        ensures
            exists|w: V3i|
                1024 <= #[trigger] dot_i(w, w) <= FX_ONE as int && v@ == div_i(w, mag_bits(w)),
            unit_dir(v@),
    {
        let mut tries: u32 = 64;
        while tries > 0
            invariant
                true,
            decreases tries,
        {
            let v = Vec3 {
                x: crate::rng::random_symmetric(),
                y: crate::rng::random_symmetric(),
                z: crate::rng::random_symmetric(),
            };
            let w = dot_wide(&v, &v);
            if 1024 <= w && w < FX_ONE as i128 {
                let u = v.normalize();
                proof {
                    assert(1024 <= dot_i(v@, v@) <= FX_ONE as int);
                    lemma_normalize_unit(v@);
                    lemma_comp_small(u@);
                }
                return u;
            }
            tries = tries - 1;
        }
        let v = Vec3 { x: Fx { bits: FX_ONE }, y: Fx { bits: 0 }, z: Fx { bits: 0 } };
        proof {
            lemma_unit_fallback();
        }
        let u = v.normalize();
        proof {
            lemma_normalize_unit(v@);
            lemma_comp_small(u@);
        }
        u
    }
}

/// The fallback cube point lies strictly inside the unit ball.
proof fn lemma_ball_fallback()
    ensures
        dot_i(V3i { x: 32768, y: 0, z: 0 }, V3i { x: 32768, y: 0, z: 0 }) == 16384,
{
    crate::fx::lemma_fx_mul_zero(0);
    vstd::arithmetic::div_mod::lemma_div_by_multiple(16384, FX_ONE as int);
    assert(32768 * 32768 == 16384 * 65536) by (nonlinear_arith);
}

/// The fallback axis vector has a self dot product of exactly one.
proof fn lemma_unit_fallback()
    ensures
        dot_i(
            V3i { x: FX_ONE as int, y: 0, z: 0 },
            V3i { x: FX_ONE as int, y: 0, z: 0 },
        ) == FX_ONE as int,
{
    crate::fx::lemma_fx_mul_zero(0);
    crate::fx::lemma_fx_mul_one(FX_ONE as int);
}

/// A direction of unit length, up to the rounding of the normalization: its
/// self dot product sits within a fraction of a percent of one, and no
/// component exceeds two.
pub open spec fn unit_dir(d: V3i) -> bool {
    FX_ONE as int - 12 <= dot_i(d, d) <= FX_ONE as int + 512 && v3_bounded(d, 0x2_0000)
}

/// A vector whose self dot product is near one has small components.
proof fn lemma_comp_small(v: V3i)
    requires
        dot_i(v, v) <= FX_ONE as int + 512,
    ensures
        v3_bounded(v, 0x2_0000),
{
    lemma_fx_sq_nonneg(v.x);
    lemma_fx_sq_nonneg(v.y);
    lemma_fx_sq_nonneg(v.z);
    lemma_sq_from_fx(v.x, FX_ONE as int + 512);
    lemma_sq_from_fx(v.y, FX_ONE as int + 512);
    lemma_sq_from_fx(v.z, FX_ONE as int + 512);
    assert(v.x * v.x <= 66049 * 65536 ==> -0x2_0000 <= v.x <= 0x2_0000) by (nonlinear_arith);
    assert(v.y * v.y <= 66049 * 65536 ==> -0x2_0000 <= v.y <= 0x2_0000) by (nonlinear_arith);
    assert(v.z * v.z <= 66049 * 65536 ==> -0x2_0000 <= v.z <= 0x2_0000) by (nonlinear_arith);
}

/// The magnitude of an integer.
pub open spec fn absi(x: int) -> int {
    if x >= 0 {
        x
    } else {
        -x
    }
}

/// One component divided by the magnitude: the quotient scaled back differs
/// from the scaled component by less than one divisor.
proof fn lemma_norm_comp_remainder(c: int, m: int)
    requires
        m >= 1,
    ensures
        absi(fx_div_bits(c, m)) * m <= absi(c) * (FX_ONE as int),
        absi(c) * (FX_ONE as int) < absi(fx_div_bits(c, m)) * m + m,
        fx_div_bits(c, m) * fx_div_bits(c, m) == absi(fx_div_bits(c, m)) * absi(
            fx_div_bits(c, m),
        ),
        absi(fx_div_bits(c, m)) >= 0,
{
    let a = absi(c) * (FX_ONE as int);
    assert(absi(c) * (FX_ONE as int) >= 0) by (nonlinear_arith)
        requires
            absi(c) >= 0,
            FX_ONE as int == 65536,
    ;
    lemma_fundamental_div_mod(a, m);
    lemma_mod_division_less_than_divisor(a, m);
    lemma_div_pos_is_pos(a, m);
    assert(m * (a / m) == (a / m) * m) by (nonlinear_arith);
    if c >= 0 {
        assert(c * (FX_ONE as int) == a);
        assert(fx_div_bits(c, m) == a / m);
    } else {
        assert(c * (FX_ONE as int) == -a) by (nonlinear_arith)
            requires
                c < 0,
                a == (-c) * (FX_ONE as int),
        ;
        assert(fx_div_bits(c, m) == -(a / m));
    }
    let u = absi(fx_div_bits(c, m));
    assert(u == a / m);
    assert(fx_div_bits(c, m) * fx_div_bits(c, m) == u * u) by (nonlinear_arith)
        requires
            fx_div_bits(c, m) == u || fx_div_bits(c, m) == -u,
    ;
}

/// One component divided by a nonzero scalar of either sign: the quotient
/// scaled back by the divisor's magnitude differs from the scaled component
/// by less than that magnitude.
pub proof fn lemma_div_comp_abs(c: int, b: int)
    requires
        b != 0,
    ensures
        absi(fx_div_bits(c, b)) * absi(b) <= absi(c) * (FX_ONE as int),
        absi(c) * (FX_ONE as int) < absi(fx_div_bits(c, b)) * absi(b) + absi(b),
        fx_div_bits(c, b) * fx_div_bits(c, b) == absi(fx_div_bits(c, b)) * absi(
            fx_div_bits(c, b),
        ),
        absi(fx_div_bits(c, b)) >= 0,
{
    let m = absi(b);
    let a = absi(c) * (FX_ONE as int);
    assert(absi(c) * (FX_ONE as int) >= 0) by (nonlinear_arith)
        requires
            absi(c) >= 0,
            FX_ONE as int == 65536,
    ;
    lemma_fundamental_div_mod(a, m);
    lemma_mod_division_less_than_divisor(a, m);
    lemma_div_pos_is_pos(a, m);
    assert(m * (a / m) == (a / m) * m) by (nonlinear_arith);
    if b >= 0 {
        if c >= 0 {
            assert(c * (FX_ONE as int) == a);
            assert(fx_div_bits(c, b) == a / m);
        } else {
            assert(c * (FX_ONE as int) == -a) by (nonlinear_arith)
                requires
                    c < 0,
                    a == (-c) * (FX_ONE as int),
            ;
            assert(fx_div_bits(c, b) == -(a / m));
        }
    } else {
        if c >= 0 {
            assert(c * (FX_ONE as int) == a);
            assert(-(c * (FX_ONE as int)) == -a);
            assert(fx_div_bits(c, b) == -(a / m));
        } else {
            assert(c * (FX_ONE as int) == -a) by (nonlinear_arith)
                requires
                    c < 0,
                    a == (-c) * (FX_ONE as int),
            ;
            assert(-(c * (FX_ONE as int)) == a);
            assert(fx_div_bits(c, b) == a / m);
        }
    }
    let u = absi(fx_div_bits(c, b));
    assert(u == a / m);
    assert(fx_div_bits(c, b) * fx_div_bits(c, b) == u * u) by (nonlinear_arith)
        requires
            fx_div_bits(c, b) == u || fx_div_bits(c, b) == -u,
    ;
}

/// A normalized vector really has length one: for a vector long enough to
/// measure, the self dot product of `v / magnitude(v)` lands within a
/// fraction of a percent of one. (A shorter vector, such as one whose every
/// component is below the fixed-point resolution, can miss by far: the
/// quotient digitizes too coarsely.)
pub proof fn lemma_normalize_unit(v: V3i)
    requires
        1024 <= dot_i(v, v) <= 0x7fff_ffff_ffff_ffff,
    ensures
        FX_ONE as int - 12 <= dot_i(div_i(v, mag_bits(v)), div_i(v, mag_bits(v))),
        dot_i(div_i(v, mag_bits(v)), div_i(v, mag_bits(v))) <= FX_ONE as int + 512,
{
    let one = FX_ONE as int;
    let d = dot_i(v, v);
    let arg = d * one;
    let m = crate::fx::isqrt(arg);
    crate::fx::lemma_isqrt_exists(arg);
    assert(crate::fx::isqrt_ok(arg, m));
    assert(mag_bits(v) == m);
    // m is at least 2^13: its square stays under arg >= 2^26
    assert(m >= 8192) by (nonlinear_arith)
        requires
            crate::fx::isqrt_ok(arg, m),
            arg >= 1024 * 65536,
    ;
    // the true squared length S, against its fixed-point reading d
    let s = v.x * v.x + v.y * v.y + v.z * v.z;
    lemma_sq_reading(v.x);
    lemma_sq_reading(v.y);
    lemma_sq_reading(v.z);
    assert(d * one <= s < d * one + 3 * one);
    assert(m * m <= s) by {
        assert(m * m <= arg);
    }
    assert(s < (m + 1) * (m + 1) + 3 * one);
    // every component is at most m + 256 in magnitude
    lemma_comp_le(v.x, s, m);
    lemma_comp_le(v.y, s, m);
    lemma_comp_le(v.z, s, m);
    // the per-component quotients
    let n = div_i(v, m);
    lemma_norm_comp_remainder(v.x, m);
    lemma_norm_comp_remainder(v.y, m);
    lemma_norm_comp_remainder(v.z, m);
    let ux = absi(fx_div_bits(v.x, m));
    let uy = absi(fx_div_bits(v.y, m));
    let uz = absi(fx_div_bits(v.z, m));
    // each quotient is at most 2^16 + 2^11
    lemma_u_le(v.x, m);
    lemma_u_le(v.y, m);
    lemma_u_le(v.z, m);
    // squared quotients against squared components
    lemma_sq_bounds(v.x, m);
    lemma_sq_bounds(v.y, m);
    lemma_sq_bounds(v.z, m);
    let usq = ux * ux + uy * uy + uz * uz;
    assert(usq * (m * m) <= s * (one * one)) by (nonlinear_arith)
        requires
            usq == ux * ux + uy * uy + uz * uz,
            s == v.x * v.x + v.y * v.y + v.z * v.z,
            (ux * ux) * (m * m) <= (v.x * v.x) * (one * one),
            (uy * uy) * (m * m) <= (v.y * v.y) * (one * one),
            (uz * uz) * (m * m) <= (v.z * v.z) * (one * one),
    ;
    assert(s * (one * one) < (usq + 2 * (ux + uy + uz) + 3) * (m * m)) by (nonlinear_arith)
        requires
            usq == ux * ux + uy * uy + uz * uz,
            s == v.x * v.x + v.y * v.y + v.z * v.z,
            (v.x * v.x) * (one * one) < ((ux + 1) * (ux + 1)) * (m * m),
            (v.y * v.y) * (one * one) < ((uy + 1) * (uy + 1)) * (m * m),
            (v.z * v.z) * (one * one) < ((uz + 1) * (uz + 1)) * (m * m),
    ;
    // upper bound: usq is at most 2^32 + 2^25
    assert(usq <= 0x1_0000_0000 + 0x200_0000) by (nonlinear_arith)
        requires
            usq * (m * m) <= s * (one * one),
            one == 65536,
            s < (m + 1) * (m + 1) + 3 * one,
            m >= 8192,
            usq >= 0,
    ;
    // lower bound: usq is at least 2^32 - 2^19 - 3
    assert(usq > 0x1_0000_0000 - 0x80_000 - 3) by (nonlinear_arith)
        requires
            s * (one * one) < (usq + 2 * (ux + uy + uz) + 3) * (m * m),
            one == 65536,
            m * m <= s,
            m >= 8192,
            0 <= ux <= 67584,
            0 <= uy <= 67584,
            0 <= uz <= 67584,
    ;
    // from the quotient squares to their fixed-point readings
    lemma_sq_reading(fx_div_bits(v.x, m));
    lemma_sq_reading(fx_div_bits(v.y, m));
    lemma_sq_reading(fx_div_bits(v.z, m));
    let dn = dot_i(n, n);
    assert(dn * one <= usq < dn * one + 3 * one);
    assert(dn <= one + 512);
    assert(dn >= one - 12);
}

/// The fixed-point reading of a square: scaled back up it reproduces the
/// square to within one scale step.
pub proof fn lemma_sq_reading(c: int)
    ensures
        fx_mul_bits(c, c) * (FX_ONE as int) <= c * c,
        c * c < fx_mul_bits(c, c) * (FX_ONE as int) + (FX_ONE as int),
        fx_mul_bits(c, c) >= 0,
{
    let one = FX_ONE as int;
    assert(c * c >= 0) by (nonlinear_arith);
    lemma_fundamental_div_mod(c * c, one);
    lemma_mod_division_less_than_divisor(c * c, one);
    lemma_div_pos_is_pos(c * c, one);
    assert(one * ((c * c) / one) == ((c * c) / one) * one) by (nonlinear_arith);
}

/// No component of a vector outgrows the whole squared length by much.
proof fn lemma_comp_le(c: int, s: int, m: int)
    requires
        c * c <= s,
        s < (m + 1) * (m + 1) + 3 * (FX_ONE as int),
        m >= 8192,
    ensures
        absi(c) <= m + 256,
{
    assert(absi(c) <= m + 256) by (nonlinear_arith)
        requires
            c * c <= s,
            s < (m + 1) * (m + 1) + 3 * 65536,
            m >= 8192,
            FX_ONE as int == 65536,
            absi(c) == if c >= 0 { c } else { -c },
    ;
}

/// Each quotient of a component by the magnitude stays near one.
proof fn lemma_u_le(c: int, m: int)
    requires
        m >= 8192,
        absi(c) <= m + 256,
        absi(fx_div_bits(c, m)) * m <= absi(c) * (FX_ONE as int),
        absi(fx_div_bits(c, m)) >= 0,
    ensures
        absi(fx_div_bits(c, m)) <= 67584,
{
    assert(absi(fx_div_bits(c, m)) <= 67584) by (nonlinear_arith)
        requires
            m >= 8192,
            absi(c) <= m + 256,
            absi(fx_div_bits(c, m)) * m <= absi(c) * 65536,
            absi(fx_div_bits(c, m)) >= 0,
            FX_ONE as int == 65536,
    ;
}

/// The square of a quotient, bounded on both sides by the square of the
/// scaled component.
proof fn lemma_sq_bounds(c: int, m: int)
    requires
        m >= 1,
        absi(fx_div_bits(c, m)) * m <= absi(c) * (FX_ONE as int),
        absi(c) * (FX_ONE as int) < absi(fx_div_bits(c, m)) * m + m,
        absi(fx_div_bits(c, m)) >= 0,
    ensures
        (absi(fx_div_bits(c, m)) * absi(fx_div_bits(c, m))) * (m * m) <= (c * c) * ((
        FX_ONE as int) * (FX_ONE as int)),
        (c * c) * ((FX_ONE as int) * (FX_ONE as int)) < ((absi(fx_div_bits(c, m)) + 1) * (absi(
            fx_div_bits(c, m),
        ) + 1)) * (m * m),
{
    let u = absi(fx_div_bits(c, m));
    let a = absi(c);
    assert((u * u) * (m * m) <= (a * a) * 65536 * 65536 && (a * a) * 65536 * 65536 < ((u + 1)
        * (u + 1)) * (m * m)) by (nonlinear_arith)
        requires
            u * m <= a * 65536,
            a * 65536 < u * m + m,
            u >= 0,
            a >= 0,
            m >= 1,
    ;
    assert(a * a == c * c) by (nonlinear_arith)
        requires
            a == absi(c),
            absi(c) == if c >= 0 { c } else { -c },
    ;
    assert((a * a) * ((FX_ONE as int) * (FX_ONE as int)) == (a * a) * 65536 * 65536)
        by (nonlinear_arith)
        requires
            FX_ONE as int == 65536,
    ;
}

/// Dividing a bounded component by a magnitude of at least 1/256 keeps the
/// quotient well inside the scalar range.
proof fn lemma_norm_div_fits(c: int, m: int)
    requires
        m >= 256,
        -0x200_0000_0000 <= c <= 0x200_0000_0000,
    ensures
        -0x2_0000_0000_0000 <= fx_div_bits(c, m) <= 0x2_0000_0000_0000,
{
    lemma_mul_abs_bound(c, FX_ONE as int, 0x200_0000_0000, 0x1_0000);
    assert(0x2_0000_0000_0000int * m >= 0x200_0000_0000int * 0x1_0000) by (nonlinear_arith)
        requires
            m >= 256,
    ;
    lemma_tdiv_bound(c * (FX_ONE as int), m, 0x2_0000_0000_0000);
}

/// The dot product of two vectors.
pub fn dot(u: Vec3, v: Vec3) -> (r: Fx)
    requires
        in_i64(dot_i(u@, v@)),
    ensures
        r.bits == dot_i(u@, v@),
{
    let w = dot_wide(&u, &v);
    Fx { bits: w as i64 }
}

/// The cross product of two vectors.
pub fn cross(u: Vec3, v: Vec3) -> (r: Vec3)
    requires
        in_i64(cross_i(u@, v@).x),
        in_i64(cross_i(u@, v@).y),
        in_i64(cross_i(u@, v@).z),
    ensures
        r@ == cross_i(u@, v@),
{
    proof {
        lemma_wide_term_bound(u@.y, v@.z);
        lemma_wide_term_bound(u@.z, v@.y);
        lemma_wide_term_bound(u@.z, v@.x);
        lemma_wide_term_bound(u@.x, v@.z);
        lemma_wide_term_bound(u@.x, v@.y);
        lemma_wide_term_bound(u@.y, v@.x);
    }
    let cx: i128 = (u.y.bits as i128) * (v.z.bits as i128) / (FX_ONE as i128)
        - (u.z.bits as i128) * (v.y.bits as i128) / (FX_ONE as i128);
    let cy: i128 = (u.z.bits as i128) * (v.x.bits as i128) / (FX_ONE as i128)
        - (u.x.bits as i128) * (v.z.bits as i128) / (FX_ONE as i128);
    let cz: i128 = (u.x.bits as i128) * (v.y.bits as i128) / (FX_ONE as i128)
        - (u.y.bits as i128) * (v.x.bits as i128) / (FX_ONE as i128);
    Vec3 { x: Fx { bits: cx as i64 }, y: Fx { bits: cy as i64 }, z: Fx { bits: cz as i64 } }
}

} // verus!
