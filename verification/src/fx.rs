use vstd::prelude::*;
use vstd::arithmetic::div_mod::{lemma_div_is_ordered, lemma_div_pos_is_pos, lemma_div_by_multiple, lemma_fundamental_div_mod, lemma_div_of0};
use vstd::arithmetic::mul::lemma_mul_is_commutative;

verus! {

/// One in the fixed-point scale: values are counted in units of 2^-16.
pub const FX_ONE: i64 = 65536;

/// Saturation bound for fixed-point results that may exceed the scalar range.
pub const FX_SAT: i64 = 0x100_0000_0000;

/// Truncating (round-toward-zero) division, the rounding of `/` on the
/// machine's signed integers.
pub open spec fn tdiv(x: int, d: int) -> int {
    if x >= 0 {
        x / d
    } else {
        -((-x) / d)
    }
}

/// The bits of a fixed-point product: the exact integer product, rescaled
/// with truncation toward zero.
pub open spec fn fx_mul_bits(a: int, b: int) -> int {
    tdiv(a * b, FX_ONE as int)
}

/// The bits of a fixed-point quotient, the divisor normalized to be
/// positive (negating both operands leaves a truncating quotient unchanged).
pub open spec fn fx_div_bits(a: int, b: int) -> int {
    if b >= 0 {
        tdiv(a * (FX_ONE as int), b)
    } else {
        tdiv(-(a * (FX_ONE as int)), -b)
    }
}

/// Clamping to the symmetric saturation range.
pub open spec fn sat_bits(x: int) -> int {
    if x > FX_SAT as int {
        FX_SAT as int
    } else if x < -(FX_SAT as int) {
        -(FX_SAT as int)
    } else {
        x
    }
}

/// Clamping to the closed interval [0, 1].
pub open spec fn clamp01_bits(x: int) -> int {
    if x < 0 {
        0
    } else if x > FX_ONE as int {
        FX_ONE as int
    } else {
        x
    }
}

pub open spec fn in_i64(x: int) -> bool {
    i64::MIN <= x <= i64::MAX
}

/// r is the integer square root of n.
pub open spec fn isqrt_ok(n: int, r: int) -> bool {
    0 <= r && r * r <= n && n < (r + 1) * (r + 1)
}

/// The integer square root (meaningful for n >= 0; see lemma_isqrt_exists).
pub open spec fn isqrt(n: int) -> int {
    choose|r: int| #[trigger] isqrt_ok(n, r)
}

/// The bits of a fixed-point square root: sqrt(x / 2^16) * 2^16 rounded down
/// equals isqrt(x * 2^16).
pub open spec fn fx_sqrt_bits(x: int) -> int {
    isqrt(x * (FX_ONE as int))
}

pub proof fn lemma_isqrt_exists(n: int)
    requires
        n >= 0,
    ensures
        exists|r: int| isqrt_ok(n, r),
    decreases n,
{
    if n == 0 {
        assert(isqrt_ok(0, 0)) by (nonlinear_arith);
    } else {
        lemma_isqrt_exists(n - 1);
        let r = choose|r: int| #[trigger] isqrt_ok(n - 1, r);
        if (r + 1) * (r + 1) <= n {
            assert(isqrt_ok(n, r + 1)) by (nonlinear_arith)
                requires
                    isqrt_ok(n - 1, r),
                    (r + 1) * (r + 1) <= n,
            ;
        } else {
            assert(isqrt_ok(n, r));
        }
    }
}

pub proof fn lemma_isqrt_unique(n: int, r1: int, r2: int)
    requires
        isqrt_ok(n, r1),
        isqrt_ok(n, r2),
    ensures
        r1 == r2,
{
    assert(r1 == r2) by (nonlinear_arith)
        requires
            isqrt_ok(n, r1),
            isqrt_ok(n, r2),
    ;
}

/// From a witness, the chosen isqrt has the defining property.
pub proof fn lemma_isqrt_is(n: int, r: int)
    requires
        isqrt_ok(n, r),
    ensures
        isqrt(n) == r,
{
    assert(isqrt_ok(n, isqrt(n)));
    lemma_isqrt_unique(n, isqrt(n), r);
}

/// A square root of at least one fixed-point step is at least 256 bits.
pub proof fn lemma_sqrt_lower(x: int)
    requires
        x >= 1,
    ensures
        fx_sqrt_bits(x) >= 256,
{
    let arg = x * (FX_ONE as int);
    lemma_isqrt_exists(arg);
    assert(isqrt_ok(arg, isqrt(arg)));
    assert(x * 65536 >= 65536) by (nonlinear_arith)
        requires
            x >= 1,
    ;
    assert(isqrt(arg) >= 256) by (nonlinear_arith)
        requires
            isqrt_ok(arg, isqrt(arg)),
            arg >= 65536,
    ;
}

/// A square root cannot be negative.
pub proof fn lemma_sqrt_nonneg(x: int)
    requires
        x >= 0,
    ensures
        fx_sqrt_bits(x) >= 0,
{
    let arg = x * (FX_ONE as int);
    assert(x * 65536 >= 0) by (nonlinear_arith)
        requires
            x >= 0,
    ;
    lemma_isqrt_exists(arg);
    assert(isqrt_ok(arg, isqrt(arg)));
}

/// A bound on the numerator gives a bound on a truncating quotient.
pub proof fn lemma_tdiv_bound(x: int, d: int, b: int)
    requires
        d >= 1,
        b >= 0,
        -(b * d) <= x <= b * d,
    ensures
        -b <= tdiv(x, d) <= b,
{
    if x >= 0 {
        lemma_div_pos_is_pos(x, d);
        lemma_div_is_ordered(x, b * d, d);
        lemma_div_by_multiple(b, d);
    } else {
        lemma_div_pos_is_pos(-x, d);
        lemma_div_is_ordered(-x, b * d, d);
        lemma_div_by_multiple(b, d);
    }
}

/// Truncating division is monotone in the numerator.
pub proof fn lemma_tdiv_mono(x: int, y: int, d: int)
    requires
        d >= 1,
        x <= y,
    ensures
        tdiv(x, d) <= tdiv(y, d),
{
    if x >= 0 {
        lemma_div_is_ordered(x, y, d);
    } else if y < 0 {
        lemma_div_is_ordered(-y, -x, d);
    } else {
        lemma_div_pos_is_pos(-x, d);
        lemma_div_pos_is_pos(y, d);
    }
}

/// A small numerator gives a small truncating quotient.
pub proof fn lemma_tdiv_small(x: int, d: int, b: int)
    requires
        d >= 1,
        b >= 0,
        -b <= x <= b,
    ensures
        -b <= tdiv(x, d) <= b,
{
    assert(b * d >= b) by (nonlinear_arith)
        requires
            d >= 1,
            b >= 0,
    ;
    lemma_tdiv_bound(x, d, b);
}

/// Bounds on factors bound their product.
pub proof fn lemma_mul_abs_bound(a: int, b: int, aa: int, bb: int)
    requires
        -aa <= a <= aa,
        -bb <= b <= bb,
    ensures
        -(aa * bb) <= a * b <= aa * bb,
{
    assert(-(aa * bb) <= a * b <= aa * bb) by (nonlinear_arith)
        requires
            -aa <= a <= aa,
            -bb <= b <= bb,
    ;
}

/// Bounds on factors bound a fixed-point product.
pub proof fn lemma_fx_mul_bound(a: int, b: int, aa: int, bb: int, m: int)
    requires
        -aa <= a <= aa,
        -bb <= b <= bb,
        m >= 0,
        aa * bb <= m * (FX_ONE as int),
    ensures
        -m <= fx_mul_bits(a, b) <= m,
{
    lemma_mul_abs_bound(a, b, aa, bb);
    lemma_tdiv_bound(a * b, FX_ONE as int, m);
}

/// Multiplying by the fixed-point one is exact.
pub proof fn lemma_fx_mul_one(a: int)
    ensures
        fx_mul_bits(a, FX_ONE as int) == a,
{
    if a >= 0 {
        lemma_div_by_multiple(a, FX_ONE as int);
    } else {
        lemma_div_by_multiple(-a, FX_ONE as int);
        assert((-a) * (FX_ONE as int) == -(a * (FX_ONE as int))) by (nonlinear_arith);
    }
}

/// Multiplying by zero gives zero.
pub proof fn lemma_fx_mul_zero(a: int)
    ensures
        fx_mul_bits(a, 0) == 0,
        fx_mul_bits(0, a) == 0,
{
    lemma_div_of0(FX_ONE as int);
    assert(a * 0 == 0) by (nonlinear_arith);
    assert(0 * a == 0) by (nonlinear_arith);
}

/// The fixed-point product does not depend on the order of its factors.
pub proof fn lemma_fx_mul_comm(a: int, b: int)
    ensures
        fx_mul_bits(a, b) == fx_mul_bits(b, a),
{
    lemma_mul_is_commutative(a, b);
}

/// A signed fixed-point scalar with 16 fractional bits.
#[derive(Clone, Copy, PartialEq, Eq, Structural, Debug)]
pub struct Fx {
    pub bits: i64,
}

impl Fx {
    pub fn from_bits(bits: i64) -> (r: Fx)
        ensures
            r.bits == bits,
    {
        Fx { bits }
    }

    /// The fixed-point value of a small integer.
    pub fn of_int(i: i32) -> (r: Fx)
        ensures
            r.bits == i * (FX_ONE as int),
    {
        Fx { bits: (i as i64) * FX_ONE }
    }

    pub fn zero() -> (r: Fx)
        ensures
            r.bits == 0,
    {
        Fx { bits: 0 }
    }

    pub fn one() -> (r: Fx)
        ensures
            r.bits == FX_ONE as int,
    {
        Fx { bits: FX_ONE }
    }

    pub fn add(self, o: Fx) -> (r: Fx)
        requires
            in_i64(self.bits + o.bits),
        ensures
            r.bits == self.bits + o.bits,
    {
        Fx { bits: self.bits + o.bits }
    }

    pub fn sub(self, o: Fx) -> (r: Fx)
        requires
            in_i64(self.bits - o.bits),
        ensures
            r.bits == self.bits - o.bits,
    {
        Fx { bits: self.bits - o.bits }
    }

    pub fn neg(self) -> (r: Fx)
        requires
            in_i64(-self.bits),
        ensures
            r.bits == -self.bits,
    {
        Fx { bits: -self.bits }
    }

    pub fn mul(self, o: Fx) -> (r: Fx)
        requires
            in_i64(fx_mul_bits(self.bits as int, o.bits as int)),
        ensures
            r.bits == fx_mul_bits(self.bits as int, o.bits as int),
    {
        proof {
            lemma_mul_abs_bound(
                self.bits as int,
                o.bits as int,
                0x8000_0000_0000_0000,
                0x8000_0000_0000_0000,
            );
        }
        let p: i128 = (self.bits as i128) * (o.bits as i128);
        let q: i128 = p / (FX_ONE as i128);
        Fx { bits: q as i64 }
    }

    pub fn div(self, o: Fx) -> (r: Fx)
        requires
            o.bits != 0,
            in_i64(fx_div_bits(self.bits as int, o.bits as int)),
        ensures
            r.bits == fx_div_bits(self.bits as int, o.bits as int),
    {
        proof {
            lemma_mul_abs_bound(
                self.bits as int,
                FX_ONE as int,
                0x8000_0000_0000_0000,
                0x1_0000,
            );
            if o.bits >= 0 {
                lemma_tdiv_small(
                    (self.bits as int) * (FX_ONE as int),
                    o.bits as int,
                    0x8000_0000_0000_0000_0000,
                );
            } else {
                lemma_tdiv_small(
                    -((self.bits as int) * (FX_ONE as int)),
                    -(o.bits as int),
                    0x8000_0000_0000_0000_0000,
                );
            }
        }
        let n: i128 = (self.bits as i128) * (FX_ONE as i128);
        let d: i128 = o.bits as i128;
        let q: i128 = if d > 0 {
            n / d
        } else {
            (-n) / (-d)
        };
        Fx { bits: q as i64 }
    }

    pub fn sqrt(self) -> (r: Fx)
        requires
            self.bits >= 0,
        ensures
            r.bits == fx_sqrt_bits(self.bits as int),
    {
        let n: u128 = (self.bits as u128) * 65536;
        let s: u64 = isqrt_u128(n);
        proof {
            assert(self.bits as u128 <= 0x7fff_ffff_ffff_ffffu128);
            lemma_isqrt_is(n as int, s as int);
            assert(n as int <= 0x8000_0000_0000_0000_0000int);
            assert(s < 0x100_0000_0000u64) by (nonlinear_arith)
                requires
                    (s as int) * (s as int) <= n as int,
                    n as int <= 0x8000_0000_0000_0000_0000int,
            ;
        }
        Fx { bits: s as i64 }
    }

    /// Clamp to [0, 1].
    pub fn clamp01(self) -> (r: Fx)
        ensures
            r.bits == clamp01_bits(self.bits as int),
    {
        if self.bits < 0 {
            Fx { bits: 0 }
        } else if self.bits > FX_ONE {
            Fx { bits: FX_ONE }
        } else {
            self
        }
    }
}

impl Fx {
    /// Saturating product: exact while the result stays in the saturation
    /// range, clamped at its edges.
    pub fn mul_sat(self, o: Fx) -> (r: Fx)
        ensures
            r.bits == sat_bits(fx_mul_bits(self.bits as int, o.bits as int)),
    {
        proof {
            lemma_mul_abs_bound(
                self.bits as int,
                o.bits as int,
                0x8000_0000_0000_0000,
                0x8000_0000_0000_0000,
            );
        }
        let p: i128 = (self.bits as i128) * (o.bits as i128);
        fx_saturate(p / (FX_ONE as i128))
    }

    /// Saturating quotient.
    pub fn div_sat(self, o: Fx) -> (r: Fx)
        requires
            o.bits != 0,
        ensures
            r.bits == sat_bits(fx_div_bits(self.bits as int, o.bits as int)),
    {
        proof {
            lemma_mul_abs_bound(
                self.bits as int,
                FX_ONE as int,
                0x8000_0000_0000_0000,
                0x1_0000,
            );
            if o.bits >= 0 {
                lemma_tdiv_small(
                    (self.bits as int) * (FX_ONE as int),
                    o.bits as int,
                    0x8000_0000_0000_0000_0000,
                );
            } else {
                lemma_tdiv_small(
                    -((self.bits as int) * (FX_ONE as int)),
                    -(o.bits as int),
                    0x8000_0000_0000_0000_0000,
                );
            }
        }
        let n: i128 = (self.bits as i128) * (FX_ONE as i128);
        let d: i128 = o.bits as i128;
        let q: i128 = if d > 0 {
            n / d
        } else {
            (-n) / (-d)
        };
        fx_saturate(q)
    }

    /// Saturating sum.
    pub fn add_sat(self, o: Fx) -> (r: Fx)
        ensures
            r.bits == sat_bits(self.bits + o.bits),
    {
        fx_saturate((self.bits as i128) + (o.bits as i128))
    }

    /// Saturating difference.
    pub fn sub_sat(self, o: Fx) -> (r: Fx)
        ensures
            r.bits == sat_bits(self.bits - o.bits),
    {
        fx_saturate((self.bits as i128) - (o.bits as i128))
    }

    /// Saturating negation.
    pub fn neg_sat(self) -> (r: Fx)
        ensures
            r.bits == sat_bits(-self.bits),
    {
        fx_saturate(-(self.bits as i128))
    }
}

/// Saturate a wide intermediate result into the scalar range.
pub fn fx_saturate(v: i128) -> (r: Fx)
    ensures
        r.bits == sat_bits(v as int),
{
    if v > FX_SAT as i128 {
        Fx { bits: FX_SAT }
    } else if v < -(FX_SAT as i128) {
        Fx { bits: -FX_SAT }
    } else {
        Fx { bits: v as i64 }
    }
}

/// The integer square root, by bisection.
pub fn isqrt_u128(n: u128) -> (r: u64)
    ensures
        isqrt_ok(n as int, r as int),
{
    let mut lo: u128 = 0;
    let mut hi: u128 = 0x1_0000_0000_0000_0000;
    proof {
        assert(0x1_0000_0000_0000_0000int * 0x1_0000_0000_0000_0000int
            == 0x1_0000_0000_0000_0000_0000_0000_0000_0000int) by (nonlinear_arith);
    }
    while hi - lo > 1
        invariant
            lo < hi <= 0x1_0000_0000_0000_0000u128,
            (lo as int) * (lo as int) <= n as int,
            (n as int) < (hi as int) * (hi as int),
        decreases hi - lo,
    {
        let mid: u128 = lo + (hi - lo) / 2;
        proof {
            lemma_fundamental_div_mod((hi - lo) as int, 2);
        }
        proof {
            assert((mid as int) * (mid as int) <= 0xffff_ffff_ffff_fffe_0000_0000_0000_0001int)
                by (nonlinear_arith)
                requires
                    0 <= mid as int <= 0xffff_ffff_ffff_ffffint,
            ;
        }
        let m2: u128 = mid * mid;
        if m2 <= n {
            lo = mid;
        } else {
            hi = mid;
        }
    }
    lo as u64
}

} // verus!
