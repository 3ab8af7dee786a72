//! The turn test and the distance comparison, in exact integer arithmetic.
use vstd::prelude::*;

verus! {

/// A grid point: first and second coordinate.
pub type Point = (usize, usize);

/// Determinant of the vectors `(ux, uy)` and `(vx, vy)`.
pub open spec fn det(ux: int, uy: int, vx: int, vy: int) -> int {
    ux * vy - uy * vx
}

/// Twice the signed area of the triangle `a`, `b`, `c`: positive when the walk
/// `a -> b -> c` turns left, negative when it turns right, zero when the three
/// points lie on one line.
#[verifier::opaque]
pub open spec fn cross(a: Point, b: Point, c: Point) -> int {
    det(b.0 - a.0, b.1 - a.1, c.0 - a.0, c.1 - a.1)
}

/// Square of the Euclidean distance between `a` and `b`.
pub open spec fn dist_sq(a: Point, b: Point) -> int {
    (b.0 - a.0) * (b.0 - a.0) + (b.1 - a.1) * (b.1 - a.1)
}

/// Sign of an integer: -1, 0 or 1.
pub open spec fn signum(x: int) -> int {
    if x < 0 {
        -1
    } else if x == 0 {
        0
    } else {
        1
    }
}

/// `|x - y|`, widened so that products of two such values fit.
fn gap(x: usize, y: usize) -> (d: u128)
    ensures
        d == if x >= y { x - y } else { y - x },
        d <= u64::MAX,
{
    if x >= y {
        (x - y) as u128
    } else {
        (y - x) as u128
    }
}

/// The product of two 64-bit magnitudes fits in 128 bits.
proof fn lemma_product_fits(a: u128, b: u128)
    requires
        a <= u64::MAX,
        b <= u64::MAX,
    ensures
        a * b <= u128::MAX,
{
    assert(a * b <= 0xffff_ffff_ffff_ffff * 0xffff_ffff_ffff_ffff) by (nonlinear_arith)
        requires
            a <= 0xffff_ffff_ffff_ffff,
            b <= 0xffff_ffff_ffff_ffff,
    ;
}

/// The signed product `x * y` of two differences, each given as a sign flag
/// and a magnitude.
spec fn signed(neg: bool, mag: int) -> int {
    if neg {
        -mag
    } else {
        mag
    }
}

/// A product is the product of the magnitudes, negative where the signs differ.
proof fn lemma_signed_product(x: int, y: int, mx: int, my: int)
    requires
        mx == if x < 0 { -x } else { x },
        my == if y < 0 { -y } else { y },
    ensures
        x * y == signed((x < 0) != (y < 0), mx * my),
{
    assert(x * y == signed((x < 0) != (y < 0), mx * my)) by (nonlinear_arith)
        requires
            mx == if x < 0 { -x } else { x },
            my == if y < 0 { -y } else { y },
    ;
}

/// Both coordinates of `p` are small enough for `ccw` to hold every signed
/// area of three such points: at most `i64::MAX`.
pub open spec fn in_reach(p: Point) -> bool {
    p.0 <= i64::MAX && p.1 <= i64::MAX
}

/// The product of two differences of coordinates in reach stays below `2^126`
/// in size.
proof fn lemma_product_in_reach(a: int, b: int)
    requires
        -0x8000_0000_0000_0000 < a < 0x8000_0000_0000_0000,
        -0x8000_0000_0000_0000 < b < 0x8000_0000_0000_0000,
    ensures
        -0x4000_0000_0000_0000_0000_0000_0000_0000 < a * b
            < 0x4000_0000_0000_0000_0000_0000_0000_0000,
{
    let m = if a < 0 { -a } else { a };
    let n = if b < 0 { -b } else { b };
    lemma_signed_product(a, b, m, n);
    assert(m * n <= 0x7fff_ffff_ffff_ffff * 0x7fff_ffff_ffff_ffff) by (nonlinear_arith)
        requires
            0 <= m <= 0x7fff_ffff_ffff_ffff,
            0 <= n <= 0x7fff_ffff_ffff_ffff,
    ;
}

/// The turn test: twice the signed area of the triangle `p0`, `p1`, `p2`,
/// `(p1.x - p0.x) * (p2.y - p0.y) - (p1.y - p0.y) * (p2.x - p0.x)`. It is
/// positive where the walk `p0 -> p1 -> p2` turns left, zero where the three lie
/// on one line, negative where it turns right. The coordinates must be in
/// reach, so that the area fits the result.
pub fn ccw(p0: Point, p1: Point, p2: Point) -> (area: i128)
    requires
        in_reach(p0),
        in_reach(p1),
        in_reach(p2),
    ensures
        area == cross(p0, p1, p2),
{
    let ux = p1.0 as i128 - p0.0 as i128;
    let uy = p1.1 as i128 - p0.1 as i128;
    let vx = p2.0 as i128 - p0.0 as i128;
    let vy = p2.1 as i128 - p0.1 as i128;
    proof {
        reveal(cross);
        lemma_product_in_reach(ux as int, vy as int);
        lemma_product_in_reach(uy as int, vx as int);
    }
    ux * vy - uy * vx
}

/// The sign of the turn `p0 -> p1 -> p2`: 1 for a left turn, -1 for a right
/// turn, 0 for three points on one line. Exact for every coordinate a `usize`
/// holds, also where the signed area itself fits no machine integer.
pub fn turn_sign(p0: Point, p1: Point, p2: Point) -> (s: i8)
    ensures
        s == signum(cross(p0, p1, p2)),
{
    let ux = gap(p1.0, p0.0);
    let uy = gap(p1.1, p0.1);
    let vx = gap(p2.0, p0.0);
    let vy = gap(p2.1, p0.1);
    proof {
        reveal(cross);
        lemma_product_fits(ux, vy);
        lemma_product_fits(uy, vx);
        lemma_signed_product(p1.0 - p0.0, p2.1 - p0.1, ux as int, vy as int);
        lemma_signed_product(p1.1 - p0.1, p2.0 - p0.0, uy as int, vx as int);
    }
    let left: u128 = ux * vy;
    let right: u128 = uy * vx;
    let left_neg = (p1.0 < p0.0) != (p2.1 < p0.1);
    let right_neg = (p1.1 < p0.1) != (p2.0 < p0.0);
    if left_neg == right_neg {
        if left == right {
            0
        } else if (left > right) != left_neg {
            1
        } else {
            -1
        }
    } else if left == 0 && right == 0 {
        0
    } else if right_neg {
        1
    } else {
        -1
    }
}

/// The sum `a + b` of two `u128` as a carry and the low 128 bits.
fn wide_sum(a: u128, b: u128) -> (r: (bool, u128))
    ensures
        a + b == (if r.0 { 0x1_0000_0000_0000_0000_0000_0000_0000_0000int } else { 0int }) + r.1,
{
    match a.checked_add(b) {
        Some(s) => (false, s),
        None => (true, a.wrapping_add(b)),
    }
}

/// Whether `b` lies strictly farther from `p0` than `a` does.
pub fn farther(p0: Point, a: Point, b: Point) -> (r: bool)
    ensures
        r == (dist_sq(p0, a) < dist_sq(p0, b)),
{
    let ax = gap(a.0, p0.0);
    let ay = gap(a.1, p0.1);
    let bx = gap(b.0, p0.0);
    let by = gap(b.1, p0.1);
    proof {
        lemma_product_fits(ax, ax);
        lemma_product_fits(ay, ay);
        lemma_product_fits(bx, bx);
        lemma_product_fits(by, by);
        lemma_signed_product(a.0 - p0.0, a.0 - p0.0, ax as int, ax as int);
        lemma_signed_product(a.1 - p0.1, a.1 - p0.1, ay as int, ay as int);
        lemma_signed_product(b.0 - p0.0, b.0 - p0.0, bx as int, bx as int);
        lemma_signed_product(b.1 - p0.1, b.1 - p0.1, by as int, by as int);
    }
    let da = wide_sum(ax * ax, ay * ay);
    let db = wide_sum(bx * bx, by * by);
    if da.0 == db.0 {
        da.1 < db.1
    } else {
        db.0
    }
}

} // verus!
