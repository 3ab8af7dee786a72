//! Facts of plane geometry that the scan rests on, stated over `cross`.
use vstd::prelude::*;
use crate::hull::turn::{Point, det, cross, dist_sq};

verus! {

/// Lexicographic order on points: first coordinate, then second.
pub open spec fn lex_lt(a: Point, b: Point) -> bool {
    a.0 < b.0 || (a.0 == b.0 && a.1 < b.1)
}

/// `q` lies on the closed segment from `a` to `b`.
pub open spec fn on_segment(a: Point, b: Point, q: Point) -> bool {
    &&& cross(a, b, q) == 0
    &&& (a.0 <= q.0 <= b.0 || b.0 <= q.0 <= a.0)
    &&& (a.1 <= q.1 <= b.1 || b.1 <= q.1 <= a.1)
}

/// A vector that points into the half-plane of everything lexicographically
/// after the origin.
pub open spec fn rightward(ux: int, uy: int) -> bool {
    ux > 0 || (ux == 0 && uy > 0)
}

/// For three plane vectors, `[u v] w + [v w] u = [u w] v`, coordinate by coordinate.
pub proof fn lemma_det_resolve(ux: int, uy: int, vx: int, vy: int, wx: int, wy: int)
    ensures
        det(ux, uy, vx, vy) * wx + det(vx, vy, wx, wy) * ux == det(ux, uy, wx, wy) * vx,
        det(ux, uy, vx, vy) * wy + det(vx, vy, wx, wy) * uy == det(ux, uy, wx, wy) * vy,
{
    assert((ux * vy - uy * vx) * wx + (vx * wy - vy * wx) * ux == (ux * wy - uy * wx) * vx)
        by (nonlinear_arith);
    assert((ux * vy - uy * vx) * wy + (vx * wy - vy * wx) * uy == (ux * wy - uy * wx) * vy)
        by (nonlinear_arith);
}

/// Factors of a product may change places.
pub proof fn lemma_mul_swap(a: int, b: int, c: int)
    by (nonlinear_arith)
    ensures
        a * (b * c) == (a * c) * b,
{
}

/// A product spreads over a sum and over a difference.
pub proof fn lemma_mul_spread(a: int, b: int, c: int)
    by (nonlinear_arith)
    ensures
        a * (b + c) == a * b + a * c,
        (b - c) * a == b * a - c * a,
{
}

/// `a x (p d + q b) = p (a x d) + q (a x b)` for scalars `p`, `q`.
proof fn lemma_det_linear(ax: int, ay: int, p: int, q: int, dx: int, dy: int, bx: int, by: int)
    ensures
        ax * (p * dy + q * by) - ay * (p * dx + q * bx) == (ax * dy - ay * dx) * p + (ax * by - ay
            * bx) * q,
{
    lemma_mul_spread(ax, p * dy, q * by);
    lemma_mul_spread(ay, p * dx, q * bx);
    lemma_mul_swap(ax, p, dy);
    lemma_mul_swap(ax, q, by);
    lemma_mul_swap(ay, p, dx);
    lemma_mul_swap(ay, q, bx);
    lemma_mul_spread(p, ax * dy, ay * dx);
    lemma_mul_spread(q, ax * by, ay * bx);
}

/// For four plane vectors, `[a b][c d] = [a c][b d] - [a d][b c]`.
pub proof fn lemma_det_exchange(
    ax: int, ay: int, bx: int, by: int, cx: int, cy: int, dx: int, dy: int,
)
    ensures
        det(ax, ay, bx, by) * det(cx, cy, dx, dy) == det(ax, ay, cx, cy) * det(bx, by, dx, dy)
            - det(ax, ay, dx, dy) * det(bx, by, cx, cy),
{
    // [b c] d + [c d] b = [b d] c, then take the determinant with a on both sides.
    lemma_det_resolve(bx, by, cx, cy, dx, dy);
    let bc = det(bx, by, cx, cy);
    let cd = det(cx, cy, dx, dy);
    let bd = det(bx, by, dx, dy);
    lemma_det_linear(ax, ay, bc, cd, dx, dy, bx, by);
    lemma_det_linear(ax, ay, bd, 0, cx, cy, 0, 0);
}

/// `cross` is unchanged by rotating its arguments and negated by swapping two.
pub proof fn lemma_cross_rotate(a: Point, b: Point, c: Point)
    ensures
        cross(a, b, c) == cross(b, c, a),
        cross(a, b, c) == cross(c, a, b),
        cross(a, b, c) == -cross(a, c, b),
        cross(a, b, c) == -cross(b, a, c),
        cross(a, b, c) == -cross(c, b, a),
{
    reveal(cross);
    let (ax, ay) = (a.0 as int, a.1 as int);
    let (bx, by) = (b.0 as int, b.1 as int);
    let (cx, cy) = (c.0 as int, c.1 as int);
    let abc = (bx - ax) * (cy - ay) - (by - ay) * (cx - ax);
    assert(abc == (cx - bx) * (ay - by) - (cy - by) * (ax - bx)) by (nonlinear_arith)
        requires
            abc == (bx - ax) * (cy - ay) - (by - ay) * (cx - ax),
    ;
    assert(abc == (ax - cx) * (by - cy) - (ay - cy) * (bx - cx)) by (nonlinear_arith)
        requires
            abc == (bx - ax) * (cy - ay) - (by - ay) * (cx - ax),
    ;
    assert(abc == -((cx - ax) * (by - ay) - (cy - ay) * (bx - ax))) by (nonlinear_arith)
        requires
            abc == (bx - ax) * (cy - ay) - (by - ay) * (cx - ax),
    ;
    assert(abc == -((ax - bx) * (cy - by) - (ay - by) * (cx - bx))) by (nonlinear_arith)
        requires
            abc == (bx - ax) * (cy - ay) - (by - ay) * (cx - ax),
    ;
    assert(abc == -((bx - cx) * (ay - cy) - (by - cy) * (ax - cx))) by (nonlinear_arith)
        requires
            abc == (bx - ax) * (cy - ay) - (by - ay) * (cx - ax),
    ;
}

/// A degenerate triple has no area.
pub proof fn lemma_cross_degenerate(a: Point, b: Point)
    ensures
        cross(a, a, b) == 0,
        cross(a, b, a) == 0,
        cross(a, b, b) == 0,
{
    reveal(cross);
    let (ax, ay, bx, by) = (a.0 as int, a.1 as int, b.0 as int, b.1 as int);
    assert((bx - ax) * (by - ay) - (by - ay) * (bx - ax) == 0) by (nonlinear_arith);
    assert((ax - ax) * (by - ay) - (ay - ay) * (bx - ax) == 0) by (nonlinear_arith);
    assert((bx - ax) * (ay - ay) - (by - ay) * (ax - ax) == 0) by (nonlinear_arith);
}

/// Among rightward vectors the sign of the determinant orders by slope, so it
/// is transitive, and strict as soon as one step is.
pub proof fn lemma_det_transitive(ux: int, uy: int, vx: int, vy: int, wx: int, wy: int)
    requires
        rightward(ux, uy),
        rightward(vx, vy),
        rightward(wx, wy),
        det(ux, uy, vx, vy) >= 0,
        det(vx, vy, wx, wy) >= 0,
    ensures
        det(ux, uy, wx, wy) >= 0,
        det(ux, uy, vx, vy) > 0 || det(vx, vy, wx, wy) > 0 ==> det(ux, uy, wx, wy) > 0,
{
    lemma_det_resolve(ux, uy, vx, vy, wx, wy);
    let uv = det(ux, uy, vx, vy);
    let vw = det(vx, vy, wx, wy);
    let uw = det(ux, uy, wx, wy);
    if vx > 0 {
        assert(uw >= 0 && (uv > 0 && wx > 0 ==> uw > 0) && (vw > 0 && ux > 0 ==> uw > 0))
            by (nonlinear_arith)
            requires
                uv * wx + vw * ux == uw * vx,
                uv >= 0,
                vw >= 0,
                wx >= 0,
                ux >= 0,
                vx > 0,
        ;
        if wx == 0 {
            assert(vw == vx * wy);
            assert(vw > 0) by (nonlinear_arith)
                requires
                    vw == vx * wy,
                    vx > 0,
                    wy > 0,
            ;
        }
        if ux == 0 {
            assert(uv == -(uy * vx));
            assert(uv < 0) by (nonlinear_arith)
                requires
                    uv == -(uy * vx),
                    vx > 0,
                    uy > 0,
            ;
        }
    } else {
        assert(vw == -(vy * wx));
        assert(wx == 0) by (nonlinear_arith)
            requires
                vw == -(vy * wx),
                vw >= 0,
                vy > 0,
                wx >= 0,
        ;
        assert(uw == ux * wy);
        assert(uv == ux * vy);
        assert(uw >= 0 && (uv > 0 ==> uw > 0)) by (nonlinear_arith)
            requires
                uw == ux * wy,
                uv == ux * vy,
                ux >= 0,
                wy > 0,
                vy > 0,
        ;
        assert(vw == 0);
    }
}

/// Around a pivot that precedes all three points, "not clockwise of" is transitive.
pub proof fn lemma_fan_transitive(p0: Point, a: Point, b: Point, c: Point)
    requires
        lex_lt(p0, a),
        lex_lt(p0, b),
        lex_lt(p0, c),
        cross(p0, a, b) >= 0,
        cross(p0, b, c) >= 0,
    ensures
        cross(p0, a, c) >= 0,
        cross(p0, a, b) > 0 || cross(p0, b, c) > 0 ==> cross(p0, a, c) > 0,
{
    reveal(cross);
    lemma_det_transitive(
        a.0 - p0.0, a.1 - p0.1, b.0 - p0.0, b.1 - p0.1, c.0 - p0.0, c.1 - p0.1,
    );
}

/// Two points on one ray from the pivot see every third point on the same side.
pub proof fn lemma_same_ray(p0: Point, a: Point, b: Point, c: Point)
    requires
        lex_lt(p0, a),
        lex_lt(p0, b),
        lex_lt(p0, c),
        cross(p0, a, b) == 0,
    ensures
        cross(p0, a, c) > 0 <==> cross(p0, b, c) > 0,
        cross(p0, a, c) == 0 <==> cross(p0, b, c) == 0,
{
    lemma_cross_rotate(p0, a, b);
    lemma_cross_rotate(p0, a, c);
    lemma_cross_rotate(p0, b, c);
    if cross(p0, b, c) >= 0 {
        lemma_fan_transitive(p0, a, b, c);
    }
    if cross(p0, c, b) >= 0 {
        lemma_fan_transitive(p0, c, b, a);
    }
    if cross(p0, a, c) >= 0 {
        lemma_fan_transitive(p0, b, a, c);
    }
    if cross(p0, c, a) >= 0 {
        lemma_fan_transitive(p0, c, a, b);
    }
}

/// `cross(sp, s, q)` read at the apex `s`: the edge direction against the
/// vector from `s` to `q`.
pub proof fn lemma_cross_at_apex(sp: Point, s: Point, q: Point)
    ensures
        cross(sp, s, q) == det(s.0 - sp.0, s.1 - sp.1, q.0 - s.0, q.1 - s.1),
{
    reveal(cross);
    let (ax, ay, bx, by, cx, cy) = (
        sp.0 as int,
        sp.1 as int,
        s.0 as int,
        s.1 as int,
        q.0 as int,
        q.1 as int,
    );
    assert((bx - ax) * (cy - ay) - (by - ay) * (cx - ax) == (bx - ax) * (cy - by) - (by - ay) * (cx
        - bx)) by (nonlinear_arith);
}

/// The sign that the exchange of determinants leaves for the wedge.
proof fn lemma_sign_wedge(a: int, x: int, b: int, c: int, d: int, e: int)
    by (nonlinear_arith)
    requires
        a * x == b * c - d * e,
        a > 0,
        b > 0,
        c >= 0,
        d >= 0,
        e <= 0,
    ensures
        x >= 0,
{
}

/// The tangent step of the scan. At the vertex `s`, reached along the edge
/// from `sp`, let `x` be a point to the left of that edge and `q` a point in
/// the wedge left of both `sp -> s` and `s -> x`. If `c` is left of `sp -> s`
/// but not left of `s -> x`, then `q` is not right of `s -> c`.
pub proof fn lemma_wedge(sp: Point, s: Point, x: Point, c: Point, q: Point)
    requires
        cross(sp, s, x) > 0,
        cross(sp, s, c) > 0,
        cross(s, x, c) <= 0,
        cross(sp, s, q) >= 0,
        cross(s, x, q) >= 0,
    ensures
        cross(s, c, q) >= 0,
{
    reveal(cross);
    lemma_cross_at_apex(sp, s, x);
    lemma_cross_at_apex(sp, s, c);
    lemma_cross_at_apex(sp, s, q);
    let (d1x, d1y) = (s.0 - sp.0, s.1 - sp.1);
    let (d2x, d2y) = (x.0 - s.0, x.1 - s.1);
    let (ex, ey) = (c.0 - s.0, c.1 - s.1);
    let (rx, ry) = (q.0 - s.0, q.1 - s.1);
    lemma_det_exchange(d1x, d1y, d2x, d2y, ex, ey, rx, ry);
    lemma_sign_wedge(
        det(d1x, d1y, d2x, d2y),
        det(ex, ey, rx, ry),
        det(d1x, d1y, ex, ey),
        det(d2x, d2y, rx, ry),
        det(d1x, d1y, rx, ry),
        det(d2x, d2y, ex, ey),
    );
}

/// The sign that the exchange of determinants leaves for the earlier edge.
proof fn lemma_sign_fold(p: int, x: int, q: int, r: int, s: int, t: int)
    by (nonlinear_arith)
    requires
        p * x == q * r - s * t,
        p > 0,
        q > 0,
        r > 0,
        s > 0,
        t < 0,
    ensures
        x > 0,
{
}

/// A point `c` that lies left of the edge `s -> sn` of a fan around `p0`, and
/// later in the fan than `s`, also lies left of the edge before it, `sp -> s`.
pub proof fn lemma_left_of_earlier_edge(p0: Point, sp: Point, s: Point, sn: Point, c: Point)
    requires
        cross(sp, s, sn) > 0,
        cross(p0, sp, s) > 0,
        cross(p0, s, sn) > 0,
        cross(p0, s, c) > 0,
        cross(s, sn, c) > 0,
    ensures
        cross(sp, s, c) > 0,
{
    reveal(cross);
    lemma_cross_at_apex(sp, s, sn);
    lemma_cross_at_apex(sp, s, c);
    lemma_cross_at_apex(sp, s, p0);
    lemma_cross_rotate(p0, sp, s);
    lemma_cross_rotate(p0, s, sn);
    lemma_cross_rotate(p0, s, c);
    let (d1x, d1y) = (s.0 - sp.0, s.1 - sp.1);
    let (d2x, d2y) = (sn.0 - s.0, sn.1 - s.1);
    let (d3x, d3y) = (p0.0 - s.0, p0.1 - s.1);
    let (ex, ey) = (c.0 - s.0, c.1 - s.1);
    // [d2 d3][d1 e] = [d2 d1][d3 e] - [d2 e][d3 d1]
    lemma_det_exchange(d2x, d2y, d3x, d3y, d1x, d1y, ex, ey);
    assert(det(d2x, d2y, d1x, d1y) == -det(d1x, d1y, d2x, d2y)) by (nonlinear_arith);
    assert(det(d3x, d3y, d1x, d1y) == -det(d1x, d1y, d3x, d3y)) by (nonlinear_arith);
    let p = det(d2x, d2y, d3x, d3y);
    let x = det(d1x, d1y, ex, ey);
    let q = det(d2x, d2y, ex, ey);
    let r = det(d1x, d1y, d3x, d3y);
    let s1 = det(d1x, d1y, d2x, d2y);
    let t = det(d3x, d3y, ex, ey);
    assert(p * x == (-s1) * t - q * (-r));
    assert((-s1) * t - q * (-r) == q * r - s1 * t) by (nonlinear_arith);
    lemma_sign_fold(p, x, q, r, s1, t);
}

/// What is not negative at both ends of a segment is not negative between them.
proof fn lemma_sign_blend(u: int, v: int, f0: int, fc: int, fq: int, du: int, dv: int)
    by (nonlinear_arith)
    requires
        du * v == dv * u,
        fc == f0 + du,
        fq == f0 + dv,
        f0 >= 0,
        fc >= 0,
        u != 0,
        0 <= v <= u || u <= v <= 0,
    ensures
        fq >= 0,
{
}

/// Half-planes are convex: a point on the segment between two points that are
/// not right of the edge `a -> b` is not right of it either.
pub proof fn lemma_segment_inside(a: Point, b: Point, p0: Point, c: Point, q: Point)
    requires
        cross(a, b, p0) >= 0,
        cross(a, b, c) >= 0,
        on_segment(p0, c, q),
    ensures
        cross(a, b, q) >= 0,
{
    reveal(cross);
    let (dx, dy) = (b.0 - a.0, b.1 - a.1);
    let (ux, uy) = (c.0 - p0.0, c.1 - p0.1);
    let (vx, vy) = (q.0 - p0.0, q.1 - p0.1);
    let du = det(dx, dy, ux, uy);
    let dv = det(dx, dy, vx, vy);
    let (ax, ay, px, py) = (a.0 as int, a.1 as int, p0.0 as int, p0.1 as int);
    let (cx, cy, qx, qy) = (c.0 as int, c.1 as int, q.0 as int, q.1 as int);
    assert(cross(a, b, c) == cross(a, b, p0) + du) by {
        assert(dx * (cy - ay) - dy * (cx - ax) == dx * (py - ay) - dy * (px - ax) + (dx * (cy - py)
            - dy * (cx - px))) by (nonlinear_arith);
    }
    assert(cross(a, b, q) == cross(a, b, p0) + dv) by {
        assert(dx * (qy - ay) - dy * (qx - ax) == dx * (py - ay) - dy * (px - ax) + (dx * (qy - py)
            - dy * (qx - px))) by (nonlinear_arith);
    }
    lemma_det_resolve(dx, dy, ux, uy, vx, vy);
    assert(det(ux, uy, vx, vy) == 0);
    assert(det(ux, uy, vx, vy) * dx == 0 && det(ux, uy, vx, vy) * dy == 0) by (nonlinear_arith)
        requires
            det(ux, uy, vx, vy) == 0,
    ;
    if ux != 0 {
        lemma_sign_blend(ux, vx, cross(a, b, p0), cross(a, b, c), cross(a, b, q), du, dv);
    } else if uy != 0 {
        lemma_sign_blend(uy, vy, cross(a, b, p0), cross(a, b, c), cross(a, b, q), du, dv);
    } else {
        assert(q == p0);
    }
}

/// On one ray from the pivot, the point that is not farther lies on the
/// segment from the pivot to the other.
pub proof fn lemma_nearer_on_segment(p0: Point, c: Point, q: Point)
    requires
        lex_lt(p0, c),
        lex_lt(p0, q),
        cross(p0, c, q) == 0,
        dist_sq(p0, q) <= dist_sq(p0, c),
    ensures
        on_segment(p0, c, q),
{
    reveal(cross);
    let (ux, uy) = (c.0 - p0.0, c.1 - p0.1);
    let (vx, vy) = (q.0 - p0.0, q.1 - p0.1);
    assert(ux * vy == uy * vx);
    assert(vx * vx + vy * vy <= ux * ux + uy * uy);
    if ux == 0 {
        assert(vx == 0) by (nonlinear_arith)
            requires
                ux * vy == uy * vx,
                ux == 0,
                uy > 0,
        ;
        assert(vy <= uy) by (nonlinear_arith)
            requires
                vx * vx + vy * vy <= ux * ux + uy * uy,
                vx == 0,
                ux == 0,
                vy > 0,
                uy > 0,
        ;
    } else {
        assert(vx > 0) by (nonlinear_arith)
            requires
                ux * vy == uy * vx,
                ux > 0,
                vx >= 0,
                vx == 0 ==> vy > 0,
        ;
        // The squared lengths scale like the squares of the first coordinates.
        assert((ux * ux) * (vx * vx + vy * vy) == (vx * vx) * (ux * ux + uy * uy)) by {
            lemma_mul_spread(ux * ux, vx * vx, vy * vy);
            lemma_mul_spread(vx * vx, ux * ux, uy * uy);
            assert((ux * ux) * (vy * vy) == (ux * vy) * (ux * vy)) by (nonlinear_arith);
            assert((vx * vx) * (uy * uy) == (uy * vx) * (uy * vx)) by (nonlinear_arith);
            assert((ux * ux) * (vx * vx) == (vx * vx) * (ux * ux)) by (nonlinear_arith);
        }
        let lu = ux * ux + uy * uy;
        let lv = vx * vx + vy * vy;
        assert(lu > 0) by (nonlinear_arith)
            requires
                lu == ux * ux + uy * uy,
                ux > 0,
        ;
        assert(vx <= ux) by (nonlinear_arith)
            requires
                (ux * ux) * lv == (vx * vx) * lu,
                lv <= lu,
                lu > 0,
                ux > 0,
                vx > 0,
        ;
        assert(0 <= vy <= uy || uy <= vy <= 0) by (nonlinear_arith)
            requires
                ux * vy == uy * vx,
                0 < vx <= ux,
        ;
    }
}

/// Two lines that cross meet in one point only: a point on both edges of a
/// strict corner is the corner.
pub proof fn lemma_lines_meet(xp: Point, x: Point, xn: Point, v: Point)
    requires
        cross(xp, x, xn) > 0,
        cross(xp, x, v) == 0,
        cross(x, xn, v) == 0,
    ensures
        v == x,
{
    reveal(cross);
    lemma_cross_at_apex(xp, x, xn);
    lemma_cross_at_apex(xp, x, v);
    let (d1x, d1y) = (x.0 - xp.0, x.1 - xp.1);
    let (d2x, d2y) = (xn.0 - x.0, xn.1 - x.1);
    let (rx, ry) = (v.0 - x.0, v.1 - x.1);
    lemma_det_resolve(d1x, d1y, d2x, d2y, rx, ry);
    let t = det(d1x, d1y, d2x, d2y);
    assert(rx == 0 && ry == 0) by (nonlinear_arith)
        requires
            t * rx + 0 * d1x == 0 * d2x,
            t * ry + 0 * d1y == 0 * d2y,
            t > 0,
    ;
}

/// Areas as weights. The triangle `u`, `v`, `w` splits at any point `x` into
/// three triangles whose signed areas add up to its own; and an expression
/// `cross(a, b, .)`, taken at `x` and scaled by the whole area, is the sum of
/// its values at the corners, each scaled by the area opposite.
pub proof fn lemma_area_weights(u: Point, v: Point, w: Point, x: Point, a: Point, b: Point)
    ensures
        cross(u, v, w) == cross(v, w, x) + cross(w, u, x) + cross(u, v, x),
        cross(u, v, w) * cross(a, b, x) == cross(v, w, x) * cross(a, b, u) + cross(w, u, x)
            * cross(a, b, v) + cross(u, v, x) * cross(a, b, w),
{
    reveal(cross);
    lemma_cross_rotate(v, w, x);
    lemma_cross_rotate(w, u, x);
    lemma_cross_rotate(u, v, x);
    let (xx, xy) = (x.0 as int, x.1 as int);
    let (ux, uy) = (u.0 - x.0, u.1 - x.1);
    let (vx, vy) = (v.0 - x.0, v.1 - x.1);
    let (wx, wy) = (w.0 - x.0, w.1 - x.1);
    let (dx, dy) = (b.0 - a.0, b.1 - a.1);
    let (ax, ay) = (a.0 as int, a.1 as int);
    let al = det(vx, vy, wx, wy);
    let be = det(wx, wy, ux, uy);
    let ga = det(ux, uy, vx, vy);
    assert(cross(v, w, x) == al);
    assert(cross(w, u, x) == be);
    assert(cross(u, v, x) == ga);
    assert(cross(u, v, w) == al + be + ga) by {
        assert((vx - ux) * (wy - uy) - (vy - uy) * (wx - ux) == (vx * wy - vy * wx) + (wx * uy - wy
            * ux) + (ux * vy - uy * vx)) by (nonlinear_arith);
        assert(v.0 - u.0 == vx - ux && w.1 - u.1 == wy - uy && v.1 - u.1 == vy - uy && w.0 - u.0
            == wx - ux);
    }
    let gx = cross(a, b, x);
    let du = det(dx, dy, ux, uy);
    let dv = det(dx, dy, vx, vy);
    let dw = det(dx, dy, wx, wy);
    assert(cross(a, b, u) == gx + du) by {
        assert(dx * (xy + uy - ay) - dy * (xx + ux - ax) == dx * (xy - ay) - dy * (xx - ax) + (dx
            * uy - dy * ux)) by (nonlinear_arith);
    }
    assert(cross(a, b, v) == gx + dv) by {
        assert(dx * (xy + vy - ay) - dy * (xx + vx - ax) == dx * (xy - ay) - dy * (xx - ax) + (dx
            * vy - dy * vx)) by (nonlinear_arith);
    }
    assert(cross(a, b, w) == gx + dw) by {
        assert(dx * (xy + wy - ay) - dy * (xx + wx - ax) == dx * (xy - ay) - dy * (xx - ax) + (dx
            * wy - dy * wx)) by (nonlinear_arith);
    }
    // [d u][v w] = [d v][u w] - [d w][u v]
    lemma_det_exchange(dx, dy, ux, uy, vx, vy, wx, wy);
    assert(det(ux, uy, wx, wy) == -be) by (nonlinear_arith)
        requires
            be == wx * uy - wy * ux,
            det(ux, uy, wx, wy) == ux * wy - uy * wx,
    ;
    assert(al * du + be * dv + ga * dw == 0) by (nonlinear_arith)
        requires
            du * al == dv * (-be) - dw * ga,
    ;
    lemma_mul_spread(al, gx, du);
    lemma_mul_spread(be, gx, dv);
    lemma_mul_spread(ga, gx, dw);
    assert((al + be + ga) * gx == al * gx + be * gx + ga * gx) by (nonlinear_arith);
}

} // verus!
