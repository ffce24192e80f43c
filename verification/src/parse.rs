use vstd::prelude::*;
use vstd::slice::{slice_index_get, slice_subrange};
use crate::fx::{Fx, FX_ONE, tdiv};
use crate::vec3::Vec3;
use crate::geometry::{Sphere, Plane, B_SURF};
use crate::camera::{Camera, camera_new_spec, camera_bounded};
use crate::scene::{Scene, Surface, surface_bounded, scene_bounded};

verus! {

/// Why a scene description was rejected. Reading the input is the caller's
/// business; a failure there never reaches this parser.
#[derive(Clone, Copy, PartialEq, Eq, Structural, Debug)]
pub enum ParseError {
    /// A numeric token was malformed or missing.
    ExpectedNumber,
    /// A numeric token was well formed but outside the coordinate range.
    NumberOutOfRange,
    /// An unknown leading token.
    UnexpectedSymbol,
    /// A token followed a complete plane record.
    TrailingToken,
    /// A second camera line.
    MultipleCameras,
    /// A camera whose axes have no measurable length.
    DegenerateCamera,
}

impl ParseError {
    /// A short description of the failure.
    pub fn message(&self) -> (s: &'static str)
        ensures
            s@ == match *self {
                ParseError::ExpectedNumber => "expected a number"@,
                ParseError::NumberOutOfRange => "number out of range"@,
                ParseError::UnexpectedSymbol => "unexpected symbol"@,
                ParseError::TrailingToken => "unexpected trailing token"@,
                ParseError::MultipleCameras => "multiple camera definitions"@,
                ParseError::DegenerateCamera => "degenerate camera"@,
            },
    {
        match self {
            ParseError::ExpectedNumber => "expected a number",
            ParseError::NumberOutOfRange => "number out of range",
            ParseError::UnexpectedSymbol => "unexpected symbol",
            ParseError::TrailingToken => "unexpected trailing token",
            ParseError::MultipleCameras => "multiple camera definitions",
            ParseError::DegenerateCamera => "degenerate camera",
        }
    }
}

pub open spec fn is_space_b(b: u8) -> bool {
    b == 32 || b == 9 || b == 13 || b == 11 || b == 12
}

pub open spec fn is_digit_b(b: u8) -> bool {
    48 <= b <= 57
}

/// The index of the first occurrence of `t` at or after `i`, or the length.
pub open spec fn find_from(s: Seq<u8>, i: int, t: u8) -> int
    decreases s.len() - i,
{
    if i < 0 || i >= s.len() {
        s.len() as int
    } else if s[i] == t {
        i
    } else {
        find_from(s, i + 1, t)
    }
}

/// The index of the first whitespace byte at or after `i`, or the length.
pub open spec fn tok_end(s: Seq<u8>, i: int) -> int
    decreases s.len() - i,
{
    if i < 0 || i >= s.len() {
        s.len() as int
    } else if is_space_b(s[i]) {
        i
    } else {
        tok_end(s, i + 1)
    }
}

/// The index of the first non-whitespace byte at or after `i`, or the length.
pub open spec fn skip_space(s: Seq<u8>, i: int) -> int
    decreases s.len() - i,
{
    if i < 0 || i >= s.len() {
        s.len() as int
    } else if is_space_b(s[i]) {
        skip_space(s, i + 1)
    } else {
        i
    }
}

pub proof fn lemma_find_from_bounds(s: Seq<u8>, i: int, t: u8)
    requires
        0 <= i <= s.len(),
    ensures
        i <= find_from(s, i, t) <= s.len(),
    decreases s.len() - i,
{
    if i < s.len() && s[i] != t {
        lemma_find_from_bounds(s, i + 1, t);
    }
}

pub proof fn lemma_tok_end_bounds(s: Seq<u8>, i: int)
    requires
        0 <= i <= s.len(),
    ensures
        i <= tok_end(s, i) <= s.len(),
    decreases s.len() - i,
{
    if i < s.len() && !is_space_b(s[i]) {
        lemma_tok_end_bounds(s, i + 1);
    }
}

pub proof fn lemma_skip_space_bounds(s: Seq<u8>, i: int)
    requires
        0 <= i <= s.len(),
    ensures
        i <= skip_space(s, i) <= s.len(),
    decreases s.len() - i,
{
    if i < s.len() && is_space_b(s[i]) {
        lemma_skip_space_bounds(s, i + 1);
    }
}

/// Whether a token starts at or after cursor `i`.
pub open spec fn has_tok(s: Seq<u8>, i: int) -> bool {
    skip_space(s, i) < s.len()
}

/// The token at cursor `i`.
pub open spec fn tok_of(s: Seq<u8>, i: int) -> Seq<u8> {
    s.subrange(skip_space(s, i), tok_end(s, skip_space(s, i)))
}

/// The cursor after the token at `i`.
pub open spec fn tok_next(s: Seq<u8>, i: int) -> int {
    tok_end(s, skip_space(s, i))
}

/// The value of the decimal digits of `t` in `[i, j)`, most significant
/// first.
pub open spec fn dig_val(t: Seq<u8>, i: int, j: int) -> int
    decreases j - i,
{
    if j <= i {
        0
    } else {
        dig_val(t, i, j - 1) * 10 + (t[j - 1] - 48)
    }
}

pub open spec fn pow10(k: int) -> int
    decreases k,
{
    if k <= 0 {
        1
    } else {
        10 * pow10(k - 1)
    }
}

pub open spec fn all_digits(t: Seq<u8>, i: int, j: int) -> bool {
    forall|k: int| i <= k < j ==> is_digit_b(#[trigger] t[k])
}

/// Where the digits of a numeric token begin: after one optional sign.
pub open spec fn num_body(t: Seq<u8>) -> int {
    if t.len() > 0 && (t[0] == 45 || t[0] == 43) {
        1
    } else {
        0
    }
}

pub open spec fn num_sign(t: Seq<u8>) -> int {
    if t.len() > 0 && t[0] == 45 {
        -1
    } else {
        1
    }
}

/// The index of the decimal point, or the length.
pub open spec fn num_dot(t: Seq<u8>) -> int {
    find_from(t, num_body(t), 46)
}

/// A well-formed numeric token: an optional sign, then decimal digits with
/// at most one point among them, at least one digit in all.
#[verifier::opaque]
pub open spec fn number_ok(t: Seq<u8>) -> bool {
    let b = num_body(t);
    let d = num_dot(t);
    &&& t.len() > b
    &&& all_digits(t, b, d)
    &&& (d < t.len() ==> all_digits(t, d + 1, t.len() as int))
    &&& (d > b || d + 1 < t.len())
}

/// Where the counted fraction digits of a token end: at most eight of them
/// carry into the fixed-point value, the rest are below its resolution.
pub open spec fn num_frac_end(t: Seq<u8>) -> int {
    let d = num_dot(t);
    if t.len() - (d + 1) > 8 {
        d + 1 + 8
    } else {
        t.len() as int
    }
}

/// The fixed-point bits of a well-formed numeric token.
#[verifier::opaque]
pub open spec fn number_bits(t: Seq<u8>) -> int {
    let b = num_body(t);
    let d = num_dot(t);
    let ip = dig_val(t, b, d);
    let fp = if d < t.len() {
        tdiv(dig_val(t, d + 1, num_frac_end(t)) * (FX_ONE as int), pow10(num_frac_end(t) - (d
            + 1)))
    } else {
        0
    };
    num_sign(t) * (ip * (FX_ONE as int) + fp)
}

#[verifier::opaque]
pub open spec fn number_in_range(t: Seq<u8>) -> bool {
    -(B_SURF as int) <= number_bits(t) <= B_SURF as int
}

/// Reading one number at cursor `i`: the bits and the new cursor, or why
/// not.
#[verifier::opaque]
pub open spec fn take_num(s: Seq<u8>, i: int) -> Result<(int, int), ParseError> {
    if !has_tok(s, i) {
        Err(ParseError::ExpectedNumber)
    } else {
        let t = tok_of(s, i);
        if !number_ok(t) {
            Err(ParseError::ExpectedNumber)
        } else if !number_in_range(t) {
            Err(ParseError::NumberOutOfRange)
        } else {
            Ok((number_bits(t), tok_next(s, i)))
        }
    }
}

/// A sphere record: center and radius after the leading tag; anything after
/// the radius is ignored.
#[verifier::opaque]
pub open spec fn sphere_rec(s: Seq<u8>, i: int) -> Result<Sphere, ParseError> {
    match take_num(s, i) {
        Err(e) => Err(e),
        Ok((x, i1)) => match take_num(s, i1) {
            Err(e) => Err(e),
            Ok((y, i2)) => match take_num(s, i2) {
                Err(e) => Err(e),
                Ok((z, i3)) => match take_num(s, i3) {
                    Err(e) => Err(e),
                    Ok((r, _)) => Ok(
                        Sphere {
                            center: Vec3 {
                                x: Fx { bits: x as i64 },
                                y: Fx { bits: y as i64 },
                                z: Fx { bits: z as i64 },
                            },
                            radius: Fx { bits: r as i64 },
                        },
                    ),
                },
            },
        },
    }
}

/// A plane record: a point and a normal, and nothing after them.
#[verifier::opaque]
pub open spec fn plane_rec(s: Seq<u8>, i: int) -> Result<Plane, ParseError> {
    match take_num(s, i) {
        Err(e) => Err(e),
        Ok((px, i1)) => match take_num(s, i1) {
            Err(e) => Err(e),
            Ok((py, i2)) => match take_num(s, i2) {
                Err(e) => Err(e),
                Ok((pz, i3)) => match take_num(s, i3) {
                    Err(e) => Err(e),
                    Ok((nx, i4)) => match take_num(s, i4) {
                        Err(e) => Err(e),
                        Ok((ny, i5)) => match take_num(s, i5) {
                            Err(e) => Err(e),
                            Ok((nz, i6)) => if has_tok(s, i6) {
                                Err(ParseError::TrailingToken)
                            } else {
                                Ok(
                                    Plane {
                                        point: Vec3 {
                                            x: Fx { bits: px as i64 },
                                            y: Fx { bits: py as i64 },
                                            z: Fx { bits: pz as i64 },
                                        },
                                        normal: Vec3 {
                                            x: Fx { bits: nx as i64 },
                                            y: Fx { bits: ny as i64 },
                                            z: Fx { bits: nz as i64 },
                                        },
                                    },
                                )
                            },
                        },
                    },
                },
            },
        },
    }
}

/// The up-direction hint every camera is built with.
pub open spec fn up_hint() -> Vec3 {
    Vec3 { x: Fx { bits: 0 }, y: Fx { bits: 65536 }, z: Fx { bits: 0 } }
}

/// A camera record: an eye point, a look-at target, a field of view and a
/// focal length; anything after them is ignored.
#[verifier::opaque]
pub open spec fn camera_rec(s: Seq<u8>, i: int, aspect: Fx) -> Result<Camera, ParseError> {
    match take_num(s, i) {
        Err(e) => Err(e),
        Ok((ex, i1)) => match take_num(s, i1) {
            Err(e) => Err(e),
            Ok((ey, i2)) => match take_num(s, i2) {
                Err(e) => Err(e),
                Ok((ez, i3)) => match take_num(s, i3) {
                    Err(e) => Err(e),
                    Ok((lx, i4)) => match take_num(s, i4) {
                        Err(e) => Err(e),
                        Ok((ly, i5)) => match take_num(s, i5) {
                            Err(e) => Err(e),
                            Ok((lz, i6)) => match take_num(s, i6) {
                                Err(e) => Err(e),
                                Ok((fov, i7)) => match take_num(s, i7) {
                                    Err(e) => Err(e),
                                    Ok((fl, _)) => {
                                        let eye = Vec3 {
                                            x: Fx { bits: ex as i64 },
                                            y: Fx { bits: ey as i64 },
                                            z: Fx { bits: ez as i64 },
                                        };
                                        let look = Vec3 {
                                            x: Fx { bits: lx as i64 },
                                            y: Fx { bits: ly as i64 },
                                            z: Fx { bits: lz as i64 },
                                        };
                                        match camera_new_spec(
                                            eye,
                                            look,
                                            up_hint(),
                                            Fx { bits: fov as i64 },
                                            aspect,
                                            Some(Fx { bits: fl as i64 }),
                                        ) {
                                            Some(c) => Ok(c),
                                            None => Err(ParseError::DegenerateCamera),
                                        }
                                    },
                                },
                            },
                        },
                    },
                },
            },
        },
    }
}

/// The running state of a parse: the surfaces read so far, and the camera
/// line's camera if one was seen.
pub struct PState {
    pub surfaces: Seq<Surface>,
    pub cam: Option<Camera>,
}

/// One line: its text up to a comment mark, then a record chosen by the
/// leading token. A line with no token changes nothing.
#[verifier::opaque]
pub open spec fn line_step(l: Seq<u8>, st: PState, aspect: Fx) -> Result<PState, ParseError> {
    let c = l.subrange(0, find_from(l, 0, 35));
    if !has_tok(c, 0) {
        Ok(st)
    } else {
        let t = tok_of(c, 0);
        let j = tok_next(c, 0);
        if t == seq![115u8] {
            match sphere_rec(c, j) {
                Err(e) => Err(e),
                Ok(sp) => Ok(
                    PState { surfaces: st.surfaces.push(Surface::Sphere(sp)), cam: st.cam },
                ),
            }
        } else if t == seq![112u8] {
            match plane_rec(c, j) {
                Err(e) => Err(e),
                Ok(p) => Ok(
                    PState { surfaces: st.surfaces.push(Surface::Plane(p)), cam: st.cam },
                ),
            }
        } else if t == seq![99u8] {
            if st.cam is Some {
                Err(ParseError::MultipleCameras)
            } else {
                match camera_rec(c, j, aspect) {
                    Err(e) => Err(e),
                    Ok(cm) => Ok(PState { surfaces: st.surfaces, cam: Some(cm) }),
                }
            }
        } else {
            Err(ParseError::UnexpectedSymbol)
        }
    }
}

/// Every line from cursor `i` on, folded through line_step.
#[verifier::opaque]
pub open spec fn parse_lines(s: Seq<u8>, i: int, st: PState, aspect: Fx) -> Result<
    PState,
    ParseError,
>
    decreases s.len() - i,
    via parse_lines_dec
{
    if i < 0 || i >= s.len() {
        Ok(st)
    } else {
        let nl = find_from(s, i, 10);
        match line_step(s.subrange(i, nl), st, aspect) {
            Err(e) => Err(e),
            Ok(st2) => if nl + 1 <= s.len() {
                parse_lines(s, nl + 1, st2, aspect)
            } else {
                Ok(st2)
            },
        }
    }
}

#[via_fn]
proof fn parse_lines_dec(s: Seq<u8>, i: int, st: PState, aspect: Fx) {
    if 0 <= i < s.len() {
        lemma_find_from_bounds(s, i, 10);
    }
}

/// What the whole parse returns: the surfaces in input order and a camera,
/// the camera line's if one was given, else a default built from the
/// caller's parameters (eye at the origin, looking three units down the
/// z axis, thirty degrees of field of view unless overridden).
#[verifier::opaque]
pub open spec fn parse_scene_spec(s: Seq<u8>, aspect: Fx, fov: Option<Fx>, focal: Option<Fx>)
    -> Result<(Seq<Surface>, Camera), ParseError> {
    match parse_lines(s, 0, PState { surfaces: Seq::empty(), cam: None }, aspect) {
        Err(e) => Err(e),
        Ok(st) => match st.cam {
            Some(c) => Ok((st.surfaces, c)),
            None => {
                let f = match fov {
                    Some(f) => f,
                    None => Fx { bits: 1966080 },
                };
                let look = Vec3 {
                    x: Fx { bits: 0 },
                    y: Fx { bits: 0 },
                    z: Fx { bits: 196608 },
                };
                let zero = Vec3 { x: Fx { bits: 0 }, y: Fx { bits: 0 }, z: Fx { bits: 0 } };
                match camera_new_spec(zero, look, up_hint(), f, aspect, focal) {
                    Some(c) => Ok((st.surfaces, c)),
                    None => Err(ParseError::DegenerateCamera),
                }
            },
        },
    }
}

/// One byte of a slice.
fn at(s: &[u8], i: usize) -> (b: u8)
    requires
        i < s@.len(),
    ensures
        b == s@[i as int],
{
    *slice_index_get(s, i)
}

/// The first occurrence of `t` at or after `i`, or the length.
fn find_x(s: &[u8], i: usize, t: u8) -> (r: usize)
    requires
        i <= s@.len(),
    ensures
        r == find_from(s@, i as int, t),
        i <= r <= s@.len(),
{
    let n = s.len();
    let mut k = i;
    while k < n && at(s, k) != t
        invariant
            i <= k <= n,
            n == s@.len(),
            find_from(s@, i as int, t) == find_from(s@, k as int, t),
        decreases n - k,
    {
        k = k + 1;
    }
    proof {
        lemma_find_from_bounds(s@, k as int, t);
    }
    k
}

/// The first whitespace at or after `i`, or the length.
fn tok_end_x(s: &[u8], i: usize) -> (r: usize)
    requires
        i <= s@.len(),
    ensures
        r == tok_end(s@, i as int),
        i <= r <= s@.len(),
{
    let n = s.len();
    let mut k = i;
    while k < n && !is_space_x(at(s, k))
        invariant
            i <= k <= n,
            n == s@.len(),
            tok_end(s@, i as int) == tok_end(s@, k as int),
        decreases n - k,
    {
        k = k + 1;
    }
    k
}

/// The first non-whitespace at or after `i`, or the length.
fn skip_space_x(s: &[u8], i: usize) -> (r: usize)
    requires
        i <= s@.len(),
    ensures
        r == skip_space(s@, i as int),
        i <= r <= s@.len(),
{
    let n = s.len();
    let mut k = i;
    while k < n && is_space_x(at(s, k))
        invariant
            i <= k <= n,
            n == s@.len(),
            skip_space(s@, i as int) == skip_space(s@, k as int),
        decreases n - k,
    {
        k = k + 1;
    }
    k
}

fn is_space_x(b: u8) -> (r: bool)
    ensures
        r == is_space_b(b),
{
    b == 32 || b == 9 || b == 13 || b == 11 || b == 12
}

fn is_digit_x(b: u8) -> (r: bool)
    ensures
        r == is_digit_b(b),
{
    48 <= b && b <= 57
}

/// Parse one numeric token into fixed-point bits.
fn parse_number_tok(t: &[u8]) -> (r: Result<i64, ParseError>)
    ensures
        match r {
            Ok(v) => number_ok(t@) && number_in_range(t@) && v as int == number_bits(t@)
                && -(B_SURF as int) <= v <= B_SURF as int,
            Err(ParseError::ExpectedNumber) => !number_ok(t@),
            Err(ParseError::NumberOutOfRange) => number_ok(t@) && !number_in_range(t@),
            Err(_) => false,
        },
{
    proof {
        reveal(number_ok);
        reveal(number_bits);
        reveal(number_in_range);
    }
    let n = t.len();
    if n == 0 {
        return Err(ParseError::ExpectedNumber);
    }
    let first = at(t, 0);
    let b: usize = if first == 45 || first == 43 {
        1
    } else {
        0
    };
    let neg = first == 45;
    if n <= b {
        return Err(ParseError::ExpectedNumber);
    }
    let mut k = b;
    while k < n && at(t, k) != 46 && is_digit_x(at(t, k))
        invariant
            b <= k <= n,
            n == t@.len(),
            b == num_body(t@),
            all_digits(t@, b as int, k as int),
            find_from(t@, b as int, 46) == find_from(t@, k as int, 46),
        decreases n - k,
    {
        k = k + 1;
    }
    if k < n && at(t, k) != 46 {
        proof {
            lemma_find_from_bounds(t@, k as int + 1, 46);
            assert(num_dot(t@) == find_from(t@, k as int + 1, 46));
            assert(!is_digit_b(t@[k as int]));
        }
        return Err(ParseError::ExpectedNumber);
    }
    let d = k;
    proof {
        assert(num_dot(t@) == d as int);
    }
    if d == b && d + 1 >= n {
        return Err(ParseError::ExpectedNumber);
    }
    let mut acc: i64 = 0;
    let mut kk = b;
    while kk < d
        invariant
            b <= kk <= d <= n,
            n == t@.len(),
            all_digits(t@, b as int, d as int),
            0 <= acc <= 2097153,
            (dig_val(t@, b as int, kk as int) <= 2097152 && acc == dig_val(
                t@,
                b as int,
                kk as int,
            )) || (dig_val(t@, b as int, kk as int) > 2097152 && acc == 2097153),
        decreases d - kk,
    {
        let dg = (at(t, kk) - 48) as i64;
        let next = acc * 10 + dg;
        acc = if next > 2097152 {
            2097153
        } else {
            next
        };
        proof {
            assert(dig_val(t@, b as int, kk as int + 1) == dig_val(t@, b as int, kk as int)
                * 10 + (t@[kk as int] - 48));
        }
        kk = kk + 1;
    }
    let mut fbits: i64 = 0;
    if d < n {
        let mut j = d + 1;
        while j < n && is_digit_x(at(t, j))
            invariant
                d + 1 <= j <= n,
                n == t@.len(),
                all_digits(t@, d as int + 1, j as int),
            decreases n - j,
        {
            j = j + 1;
        }
        if j < n {
            proof {
                assert(!is_digit_b(t@[j as int]));
            }
            return Err(ParseError::ExpectedNumber);
        }
        let fend: usize = if n - (d + 1) > 8 {
            d + 1 + 8
        } else {
            n
        };
        proof {
            assert(fend as int == num_frac_end(t@));
        }
        let mut fv: i64 = 0;
        let mut p: i64 = 1;
        let mut m = d + 1;
        while m < fend
            invariant
                d + 1 <= m <= fend <= n,
                n == t@.len(),
                fend <= d + 9,
                all_digits(t@, d as int + 1, n as int),
                fv == dig_val(t@, d as int + 1, m as int),
                p == pow10(m as int - (d as int + 1)),
                0 <= fv < p,
                1 <= p <= 100000000,
            decreases fend - m,
        {
            let dg = (at(t, m) - 48) as i64;
            proof {
                lemma_pow10_vals();
                assert(dig_val(t@, d as int + 1, m as int + 1) == dig_val(
                    t@,
                    d as int + 1,
                    m as int,
                ) * 10 + (t@[m as int] - 48));
                assert(pow10(m as int + 1 - (d as int + 1)) == 10 * pow10(m as int - (d
                    as int + 1)));
            }
            fv = fv * 10 + dg;
            p = p * 10;
            m = m + 1;
        }
        fbits = fv * FX_ONE / p;
    }
    if acc > 2097152 {
        proof {
            lemma_range_when_capped(t@);
        }
        return Err(ParseError::NumberOutOfRange);
    }
    let total: i64 = acc * FX_ONE + fbits;
    proof {
        assert(total as int == dig_val(t@, num_body(t@), num_dot(t@)) * (FX_ONE as int)
            + (if num_dot(t@) < t@.len() {
                tdiv(
                    dig_val(t@, num_dot(t@) + 1, num_frac_end(t@)) * (FX_ONE as int),
                    pow10(num_frac_end(t@) - (num_dot(t@) + 1)),
                )
            } else {
                0
            }));
    }
    if total > B_SURF {
        return Err(ParseError::NumberOutOfRange);
    }
    if neg {
        Ok(-total)
    } else {
        Ok(total)
    }
}

/// The first nine powers of ten.
proof fn lemma_pow10_vals()
    ensures
        pow10(0) == 1,
        pow10(1) == 10,
        pow10(2) == 100,
        pow10(3) == 1000,
        pow10(4) == 10000,
        pow10(5) == 100000,
        pow10(6) == 1000000,
        pow10(7) == 10000000,
        pow10(8) == 100000000,
{
    assert(pow10(0) == 1);
    assert(pow10(1) == 10);
    assert(pow10(2) == 100);
    assert(pow10(3) == 1000);
    assert(pow10(4) == 10000);
    assert(pow10(5) == 100000);
    assert(pow10(6) == 1000000);
    assert(pow10(7) == 10000000);
    assert(pow10(8) == 100000000);
}

/// An integer part beyond the cap puts the whole number out of range.
proof fn lemma_range_when_capped(t: Seq<u8>)
    requires
        dig_val(t, num_body(t), num_dot(t)) > 2097152,
        num_dot(t) < t.len() ==> 0 <= dig_val(t, num_dot(t) + 1, num_frac_end(t)) < pow10(
            num_frac_end(t) - (num_dot(t) + 1),
        ),
        num_dot(t) < t.len() ==> 1 <= pow10(num_frac_end(t) - (num_dot(t) + 1)),
    ensures
        !number_in_range(t),
{
    reveal(number_bits);
    reveal(number_in_range);
    let ip = dig_val(t, num_body(t), num_dot(t));
    let fp = if num_dot(t) < t.len() {
        tdiv(
            dig_val(t, num_dot(t) + 1, num_frac_end(t)) * (FX_ONE as int),
            pow10(num_frac_end(t) - (num_dot(t) + 1)),
        )
    } else {
        0
    };
    if num_dot(t) < t.len() {
        let fd = dig_val(t, num_dot(t) + 1, num_frac_end(t));
        let pw = pow10(num_frac_end(t) - (num_dot(t) + 1));
        assert(fd * (FX_ONE as int) >= 0) by (nonlinear_arith)
            requires
                fd >= 0,
        ;
        vstd::arithmetic::div_mod::lemma_div_pos_is_pos(fd * (FX_ONE as int), pw);
    }
    assert(ip * (FX_ONE as int) > 0x10_0000_0000int) by (nonlinear_arith)
        requires
            ip > 2097152,
    ;
    if num_sign(t) == 1 {
    } else {
    }
}

/// Read one numeric token at cursor `i`.
fn take_num_x(s: &[u8], i: usize) -> (r: Result<(i64, usize), ParseError>)
    requires
        i <= s@.len(),
    ensures
        match r {
            Ok((v, j)) => take_num(s@, i as int) == Ok::<(int, int), ParseError>(
                (v as int, j as int),
            ) && i <= j <= s@.len() && -(B_SURF as int) <= v <= B_SURF as int,
            Err(e) => take_num(s@, i as int) == Err::<(int, int), ParseError>(e),
        },
{
    proof {
        reveal(take_num);
    }
    let st = skip_space_x(s, i);
    if st == s.len() {
        return Err(ParseError::ExpectedNumber);
    }
    let en = tok_end_x(s, st);
    let tok = slice_subrange(s, st, en);
    match parse_number_tok(tok) {
        Ok(v) => Ok((v, en)),
        Err(e) => Err(e),
    }
}

/// Read a sphere record after its tag.
fn sphere_rec_x(s: &[u8], i: usize) -> (r: Result<Sphere, ParseError>)
    requires
        i <= s@.len(),
    ensures
        match r {
            Ok(sp) => sphere_rec(s@, i as int) == Ok::<Sphere, ParseError>(sp)
                && crate::geometry::sphere_bounded(sp),
            Err(e) => sphere_rec(s@, i as int) == Err::<Sphere, ParseError>(e),
        },
{
    proof {
        reveal(sphere_rec);
    }
    let (x, i1) = match take_num_x(s, i) {
        Ok(p) => p,
        Err(e) => {
            return Err(e);
        },
    };
    let (y, i2) = match take_num_x(s, i1) {
        Ok(p) => p,
        Err(e) => {
            return Err(e);
        },
    };
    let (z, i3) = match take_num_x(s, i2) {
        Ok(p) => p,
        Err(e) => {
            return Err(e);
        },
    };
    let (rad, _i4) = match take_num_x(s, i3) {
        Ok(p) => p,
        Err(e) => {
            return Err(e);
        },
    };
    Ok(
        Sphere {
            center: Vec3 { x: Fx { bits: x }, y: Fx { bits: y }, z: Fx { bits: z } },
            radius: Fx { bits: rad },
        },
    )
}

/// Read a plane record after its tag; nothing may follow it.
fn plane_rec_x(s: &[u8], i: usize) -> (r: Result<Plane, ParseError>)
    requires
        i <= s@.len(),
    ensures
        match r {
            Ok(p) => plane_rec(s@, i as int) == Ok::<Plane, ParseError>(p)
                && crate::geometry::plane_bounded(p),
            Err(e) => plane_rec(s@, i as int) == Err::<Plane, ParseError>(e),
        },
{
    proof {
        reveal(plane_rec);
    }
    let (px, i1) = match take_num_x(s, i) {
        Ok(p) => p,
        Err(e) => {
            return Err(e);
        },
    };
    let (py, i2) = match take_num_x(s, i1) {
        Ok(p) => p,
        Err(e) => {
            return Err(e);
        },
    };
    let (pz, i3) = match take_num_x(s, i2) {
        Ok(p) => p,
        Err(e) => {
            return Err(e);
        },
    };
    let (nx, i4) = match take_num_x(s, i3) {
        Ok(p) => p,
        Err(e) => {
            return Err(e);
        },
    };
    let (ny, i5) = match take_num_x(s, i4) {
        Ok(p) => p,
        Err(e) => {
            return Err(e);
        },
    };
    let (nz, i6) = match take_num_x(s, i5) {
        Ok(p) => p,
        Err(e) => {
            return Err(e);
        },
    };
    let st = skip_space_x(s, i6);
    if st < s.len() {
        return Err(ParseError::TrailingToken);
    }
    Ok(
        Plane {
            point: Vec3 { x: Fx { bits: px }, y: Fx { bits: py }, z: Fx { bits: pz } },
            normal: Vec3 { x: Fx { bits: nx }, y: Fx { bits: ny }, z: Fx { bits: nz } },
        },
    )
}

/// Read a camera record after its tag and build the camera.
fn camera_rec_x(s: &[u8], i: usize, aspect: Fx) -> (r: Result<Camera, ParseError>)
    requires
        i <= s@.len(),
    ensures
        match r {
            Ok(c) => camera_rec(s@, i as int, aspect) == Ok::<Camera, ParseError>(c)
                && camera_bounded(c),
            Err(e) => camera_rec(s@, i as int, aspect) == Err::<Camera, ParseError>(e),
        },
{
    proof {
        reveal(camera_rec);
    }
    let (ex, i1) = match take_num_x(s, i) {
        Ok(p) => p,
        Err(e) => {
            return Err(e);
        },
    };
    let (ey, i2) = match take_num_x(s, i1) {
        Ok(p) => p,
        Err(e) => {
            return Err(e);
        },
    };
    let (ez, i3) = match take_num_x(s, i2) {
        Ok(p) => p,
        Err(e) => {
            return Err(e);
        },
    };
    let (lx, i4) = match take_num_x(s, i3) {
        Ok(p) => p,
        Err(e) => {
            return Err(e);
        },
    };
    let (ly, i5) = match take_num_x(s, i4) {
        Ok(p) => p,
        Err(e) => {
            return Err(e);
        },
    };
    let (lz, i6) = match take_num_x(s, i5) {
        Ok(p) => p,
        Err(e) => {
            return Err(e);
        },
    };
    let (fov, i7) = match take_num_x(s, i6) {
        Ok(p) => p,
        Err(e) => {
            return Err(e);
        },
    };
    let (fl, _i8) = match take_num_x(s, i7) {
        Ok(p) => p,
        Err(e) => {
            return Err(e);
        },
    };
    let eye = Vec3 { x: Fx { bits: ex }, y: Fx { bits: ey }, z: Fx { bits: ez } };
    let look = Vec3 { x: Fx { bits: lx }, y: Fx { bits: ly }, z: Fx { bits: lz } };
    let up = Vec3 { x: Fx { bits: 0 }, y: Fx { bits: 65536 }, z: Fx { bits: 0 } };
    match Camera::new(eye, look, up, Fx { bits: fov }, aspect, Some(Fx { bits: fl })) {
        Some(c) => Ok(c),
        None => Err(ParseError::DegenerateCamera),
    }
}

/// Apply one line of the description to the parse state.
fn line_step_x(l: &[u8], surfaces: &mut Vec<Surface>, cam: &mut Option<Camera>, aspect: Fx)
    -> (r: Result<(), ParseError>)
    ensures
        match r {
            Ok(_) => line_step(
                l@,
                PState { surfaces: old(surfaces)@, cam: *old(cam) },
                aspect,
            ) == Ok::<PState, ParseError>(PState { surfaces: final(surfaces)@, cam: *final(cam) }),
            Err(e) => line_step(
                l@,
                PState { surfaces: old(surfaces)@, cam: *old(cam) },
                aspect,
            ) == Err::<PState, ParseError>(e) && final(surfaces)@ == old(surfaces)@
                && *final(cam) == *old(cam),
        },
        final(surfaces)@.len() >= old(surfaces)@.len(),
        forall|k: int|
            0 <= k < old(surfaces)@.len() ==> final(surfaces)@[k] == old(surfaces)@[k],
        forall|k: int|
            old(surfaces)@.len() <= k < final(surfaces)@.len() ==> surface_bounded(
                #[trigger] final(surfaces)@[k],
            ),
        *final(cam) == *old(cam) || match *final(cam) {
            Some(c) => camera_bounded(c),
            None => false,
        },
{
    proof {
        reveal(line_step);
    }
    let hash = find_x(l, 0, 35);
    let c = slice_subrange(l, 0, hash);
    let st = skip_space_x(c, 0);
    if st == c.len() {
        return Ok(());
    }
    let en = tok_end_x(c, st);
    proof {
        assert(tok_of(c@, 0) == c@.subrange(st as int, en as int));
    }
    let single = en == st + 1;
    let tag = at(c, st);
    proof {
        if single {
            if tag == 115 {
                assert(tok_of(c@, 0) =~= seq![115u8]);
            } else if tag == 112 {
                assert(tok_of(c@, 0) =~= seq![112u8]);
                assert(tok_of(c@, 0) != seq![115u8]) by {
                    assert(seq![112u8][0] == 112u8);
                    assert(seq![115u8][0] == 115u8);
                }
            } else if tag == 99 {
                assert(tok_of(c@, 0) =~= seq![99u8]);
                assert(tok_of(c@, 0) != seq![115u8]) by {
                    assert(seq![99u8][0] == 99u8);
                    assert(seq![115u8][0] == 115u8);
                }
                assert(tok_of(c@, 0) != seq![112u8]) by {
                    assert(seq![99u8][0] == 99u8);
                    assert(seq![112u8][0] == 112u8);
                }
            } else {
                assert(tok_of(c@, 0) != seq![115u8] && tok_of(c@, 0) != seq![112u8]
                    && tok_of(c@, 0) != seq![99u8]) by {
                    assert(tok_of(c@, 0)[0] == tag);
                    assert(seq![115u8][0] == 115u8 && seq![112u8][0] == 112u8 && seq![99u8][0]
                        == 99u8);
                }
            }
        } else {
            assert(tok_of(c@, 0) != seq![115u8] && tok_of(c@, 0) != seq![112u8] && tok_of(
                c@,
                0,
            ) != seq![99u8]) by {
                assert(tok_of(c@, 0).len() != 1);
                assert(seq![115u8].len() == 1 && seq![112u8].len() == 1 && seq![99u8].len()
                    == 1);
            }
        }
    }
    if single && tag == 115 {
        let sp = match sphere_rec_x(c, en) {
            Ok(sp) => sp,
            Err(e) => {
                proof {
                    assert(line_step(
                        l@,
                        PState { surfaces: old(surfaces)@, cam: *old(cam) },
                        aspect,
                    ) == Err::<PState, ParseError>(e));
                }
                return Err(e);
            },
        };
        surfaces.push(Surface::Sphere(sp));
        proof {
            assert(line_step(l@, PState { surfaces: old(surfaces)@, cam: *old(cam) }, aspect)
                == Ok::<PState, ParseError>(PState { surfaces: surfaces@, cam: *cam }));
        }
        Ok(())
    } else if single && tag == 112 {
        let pl = match plane_rec_x(c, en) {
            Ok(pl) => pl,
            Err(e) => {
                proof {
                    assert(line_step(
                        l@,
                        PState { surfaces: old(surfaces)@, cam: *old(cam) },
                        aspect,
                    ) == Err::<PState, ParseError>(e));
                }
                return Err(e);
            },
        };
        surfaces.push(Surface::Plane(pl));
        proof {
            assert(line_step(l@, PState { surfaces: old(surfaces)@, cam: *old(cam) }, aspect)
                == Ok::<PState, ParseError>(PState { surfaces: surfaces@, cam: *cam }));
        }
        Ok(())
    } else if single && tag == 99 {
        if cam.is_some() {
            proof {
                assert(line_step(
                    l@,
                    PState { surfaces: old(surfaces)@, cam: *old(cam) },
                    aspect,
                ) == Err::<PState, ParseError>(ParseError::MultipleCameras));
            }
            return Err(ParseError::MultipleCameras);
        }
        let cm = match camera_rec_x(c, en, aspect) {
            Ok(cm) => cm,
            Err(e) => {
                proof {
                    assert(line_step(
                        l@,
                        PState { surfaces: old(surfaces)@, cam: *old(cam) },
                        aspect,
                    ) == Err::<PState, ParseError>(e));
                }
                return Err(e);
            },
        };
        *cam = Some(cm);
        proof {
            assert(line_step(l@, PState { surfaces: old(surfaces)@, cam: *old(cam) }, aspect)
                == Ok::<PState, ParseError>(PState { surfaces: surfaces@, cam: *cam }));
        }
        Ok(())
    } else {
        proof {
            assert(line_step(l@, PState { surfaces: old(surfaces)@, cam: *old(cam) }, aspect)
                == Err::<PState, ParseError>(ParseError::UnexpectedSymbol));
        }
        Err(ParseError::UnexpectedSymbol)
    }
}

/// Build a scene from its textual description: sphere, plane and camera
/// lines, comments and blank lines, exactly as parse_scene_spec lays down.
pub fn parse_scene(input: &[u8], aspect: Fx, fov: Option<Fx>, focal: Option<Fx>) -> (res:
    Result<Scene, ParseError>)
    requires
        input@.len() < usize::MAX,
    ensures
        match res {
            Ok(scene) => parse_scene_spec(input@, aspect, fov, focal) == Ok::<
                (Seq<Surface>, Camera),
                ParseError,
            >((scene.surfaces@, scene.camera)) && scene_bounded(scene),
            Err(e) => parse_scene_spec(input@, aspect, fov, focal) == Err::<
                (Seq<Surface>, Camera),
                ParseError,
            >(e),
        },
{
    proof {
        reveal(parse_lines);
        reveal(parse_scene_spec);
    }
    let n = input.len();
    let mut surfaces: Vec<Surface> = Vec::new();
    let mut cam: Option<Camera> = None;
    let mut i: usize = 0;
    let ghost st0 = PState { surfaces: Seq::empty(), cam: None::<Camera> };
    while i < n
        invariant
            n == input@.len(),
            n < usize::MAX,
            i <= n + 1,
            parse_lines(input@, 0, st0, aspect) == parse_lines(
                input@,
                i as int,
                PState { surfaces: surfaces@, cam },
                aspect,
            ),
            st0 == (PState { surfaces: Seq::<Surface>::empty(), cam: None::<Camera> }),
            forall|k: int|
                0 <= k < surfaces@.len() ==> surface_bounded(#[trigger] surfaces@[k]),
            match cam {
                Some(c) => camera_bounded(c),
                None => true,
            },
        decreases n + 1 - i,
    {
        let nl = find_x(input, i, 10);
        let line = slice_subrange(input, i, nl);
        let ghost pre = PState { surfaces: surfaces@, cam };
        match line_step_x(line, &mut surfaces, &mut cam, aspect) {
            Ok(_) => {},
            Err(e) => {
                proof {
                    assert(parse_lines(input@, i as int, pre, aspect) == Err::<
                        PState,
                        ParseError,
                    >(e)) by {
                        reveal(parse_lines);
                    }
                    assert(parse_scene_spec(input@, aspect, fov, focal) == Err::<
                        (Seq<Surface>, Camera),
                        ParseError,
                    >(e)) by {
                        reveal(parse_scene_spec);
                    }
                }
                return Err(e);
            },
        }
        proof {
            assert(parse_lines(input@, i as int, pre, aspect) == parse_lines(
                input@,
                nl + 1,
                PState { surfaces: surfaces@, cam },
                aspect,
            )) by {
                reveal(parse_lines);
            }
        }
        i = nl + 1;
    }
    let final_cam = match cam {
        Some(c) => c,
        None => {
            let f = match fov {
                Some(f) => f,
                None => Fx { bits: 1966080 },
            };
            let look = Vec3 { x: Fx { bits: 0 }, y: Fx { bits: 0 }, z: Fx { bits: 196608 } };
            let zero = Vec3 { x: Fx { bits: 0 }, y: Fx { bits: 0 }, z: Fx { bits: 0 } };
            let up = Vec3 { x: Fx { bits: 0 }, y: Fx { bits: 65536 }, z: Fx { bits: 0 } };
            match Camera::new(zero, look, up, f, aspect, focal) {
                Some(c) => c,
                None => {
                    return Err(ParseError::DegenerateCamera);
                },
            }
        },
    };
    Ok(Scene { surfaces, camera: final_cam })
}

} // verus!
