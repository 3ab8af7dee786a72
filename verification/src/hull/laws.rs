//! What holds of every hull: the input has one hull only, and a hull is its
//! own hull.
use vstd::prelude::*;
use crate::hull::turn::{Point, cross};
use crate::hull::plane::{
    lex_lt, on_segment, lemma_cross_rotate, lemma_cross_degenerate, lemma_same_ray,
    lemma_lines_meet, lemma_area_weights,
};
use crate::hull::scan::fan_from;
use crate::hull::{
    next_index, corner_turn, wall_side, encloses, holds, no_repeats, is_convex_hull,
};

verus! {

/// Where terms that are not negative add up to zero, a term with a positive
/// weight is zero.
proof fn lemma_weights_vanish(a: int, gu: int, b: int, gv: int, c: int, gw: int)
    by (nonlinear_arith)
    requires
        a * gu + b * gv + c * gw == 0,
        a >= 0,
        gu >= 0,
        b > 0,
        gv >= 0,
        c >= 0,
        gw >= 0,
    ensures
        gv == 0,
{
}

/// Finds the slice of the fan around the first corner in which `q` lies: an
/// index `t` at or after `from` with `q` not right of the spoke to `h[t]` and
/// not left of the spoke to `h[t + 1]`.
proof fn lemma_fan_slice(h: Seq<Point>, q: Point, from: int) -> (t: int)
    requires
        h.len() >= 3,
        1 <= from <= h.len() - 2,
        cross(h[0], h[from], q) >= 0,
        cross(h[0], h[h.len() - 1], q) <= 0,
    ensures
        from <= t <= h.len() - 2,
        cross(h[0], h[t], q) >= 0,
        cross(h[0], h[t + 1], q) <= 0,
    decreases h.len() - from,
{
    if cross(h[0], h[from + 1], q) <= 0 {
        from
    } else {
        lemma_fan_slice(h, q, from + 1)
    }
}

/// A point that lies on both edges of the corner `u`, `v`, `w` wherever it
/// is not right of them, and that is one of three points which take `v`
/// between them with the positive weight `b`, is `v`.
proof fn lemma_pinned_to_corner(
    u: Point,
    v: Point,
    w: Point,
    x: Point,
    y: Point,
    z: Point,
    a: int,
    b: int,
    c: int,
)
    requires
        cross(u, v, w) > 0,
        a >= 0,
        b > 0,
        c >= 0,
        a * cross(u, v, x) + b * cross(u, v, y) + c * cross(u, v, z) == 0,
        a * cross(v, w, x) + b * cross(v, w, y) + c * cross(v, w, z) == 0,
        cross(u, v, x) >= 0,
        cross(u, v, y) >= 0,
        cross(u, v, z) >= 0,
        cross(v, w, x) >= 0,
        cross(v, w, y) >= 0,
        cross(v, w, z) >= 0,
    ensures
        y == v,
{
    lemma_weights_vanish(a, cross(u, v, x), b, cross(u, v, y), c, cross(u, v, z));
    lemma_weights_vanish(a, cross(v, w, x), b, cross(v, w, y), c, cross(v, w, z));
    lemma_lines_meet(u, v, w, y);
}

/// The points of a hull of at least three input points, but for the first,
/// come after the first in lexicographic order.
proof fn lemma_after_pivot(points: Seq<Point>, h: Seq<Point>, k: int)
    requires
        is_convex_hull(points, h),
        points.len() >= 3,
        1 <= k < h.len(),
    ensures
        lex_lt(h[0], h[k]),
{
    let b = points.index_of(h[k]);
    assert(!lex_lt(points[b], h[0]));
    assert(h[0] != h[k]);
}

/// Two hulls of the same points start at the same point.
proof fn lemma_same_pivot(points: Seq<Point>, h: Seq<Point>, k: Seq<Point>)
    requires
        is_convex_hull(points, h),
        is_convex_hull(points, k),
        points.len() >= 3,
    ensures
        h[0] == k[0],
{
    let a = points.index_of(h[0]);
    let b = points.index_of(k[0]);
    assert(!lex_lt(points[a], k[0]));
    assert(!lex_lt(points[b], h[0]));
}

/// Every corner of a hull with at least three corners is a corner of every
/// other such hull of the same points: a point that the other hull encloses
/// lies in a triangle of three of its corners, and a corner of the first hull
/// lies in no triangle of enclosed points but as one of the three.
proof fn lemma_corner_shared(points: Seq<Point>, h: Seq<Point>, k: Seq<Point>, c: int)
    requires
        is_convex_hull(points, h),
        is_convex_hull(points, k),
        points.len() >= 3,
        h.len() >= 3,
        k.len() >= 3,
        0 <= c < h.len(),
    ensures
        k.contains(h[c]),
{
    lemma_same_pivot(points, h, k);
    if c == 0 {
        assert(k[0] == h[c]);
    } else {
        let n = h.len() as int;
        let m = k.len() as int;
        let p0 = k[0];
        let (u, v, w) = (h[c - 1], h[c], h[next_index(n, c)]);
        assert(corner_turn(h, c - 1) > 0);
        // The corner is an input point, so the other hull encloses it.
        let iv = points.index_of(v);
        assert(holds(k, points[iv]));
        assert(wall_side(k, 0, v) >= 0);
        assert(wall_side(k, m - 1, v) >= 0);
        lemma_cross_rotate(k[m - 1], p0, v);
        let t = lemma_fan_slice(k, v, 1);
        let (a, b) = (k[t], k[t + 1]);
        assert(wall_side(k, t, v) >= 0);
        lemma_cross_rotate(b, p0, v);
        // The three corners of the slice are input points, so the first hull
        // encloses them: they are not right of the two edges at the corner.
        let i0 = points.index_of(p0);
        let ia = points.index_of(a);
        let ib = points.index_of(b);
        assert(holds(h, points[i0]) && holds(h, points[ia]) && holds(h, points[ib]));
        assert(wall_side(h, c - 1, p0) >= 0 && wall_side(h, c, p0) >= 0);
        assert(wall_side(h, c - 1, a) >= 0 && wall_side(h, c, a) >= 0);
        assert(wall_side(h, c - 1, b) >= 0 && wall_side(h, c, b) >= 0);
        lemma_area_weights(p0, a, b, v, u, v);
        lemma_area_weights(p0, a, b, v, v, w);
        lemma_cross_degenerate(u, v);
        lemma_cross_degenerate(v, w);
        let (wp, wa, wb) = (cross(a, b, v), cross(b, p0, v), cross(p0, a, v));
        let total = cross(p0, a, b);
        assert(total > 0);
        assert(total * cross(u, v, v) == 0 && total * cross(v, w, v) == 0) by (nonlinear_arith)
            requires
                cross(u, v, v) == 0,
                cross(v, w, v) == 0,
        ;
        if wp > 0 {
            assert(wa * cross(u, v, a) + wp * cross(u, v, p0) + wb * cross(u, v, b) == 0);
            assert(wa * cross(v, w, a) + wp * cross(v, w, p0) + wb * cross(v, w, b) == 0);
            lemma_pinned_to_corner(u, v, w, a, p0, b, wa, wp, wb);
            assert(h[0] == h[c]);
        } else if wa > 0 {
            lemma_pinned_to_corner(u, v, w, p0, a, b, wp, wa, wb);
        } else {
            assert(wp * cross(u, v, p0) + wb * cross(u, v, b) + wa * cross(u, v, a) == 0);
            assert(wp * cross(v, w, p0) + wb * cross(v, w, b) + wa * cross(v, w, a) == 0);
            lemma_pinned_to_corner(u, v, w, p0, b, a, wp, wb, wa);
        }
    }
}

/// Two walks that fan out from the same first point, hold no point twice
/// and hold the same points agree at every index that both have.
proof fn lemma_same_place(p0: Point, a: Seq<Point>, b: Seq<Point>, k: int)
    requires
        a.len() >= 1,
        b.len() >= 1,
        a[0] == p0,
        b[0] == p0,
        no_repeats(a),
        no_repeats(b),
        fan_from(p0, a),
        fan_from(p0, b),
        forall|i: int| 0 <= i < a.len() ==> b.contains(#[trigger] a[i]),
        forall|j: int| 0 <= j < b.len() ==> a.contains(#[trigger] b[j]),
        0 <= k < a.len(),
        k < b.len(),
    ensures
        a[k] == b[k],
    decreases k,
{
    if k > 0 {
        assert forall|i: int| 0 <= i < k implies a[i] == b[i] by {
            lemma_same_place(p0, a, b, i);
        }
        let j = b.index_of(a[k]);
        let l = a.index_of(b[k]);
        if j > k && l > k {
            lemma_cross_rotate(p0, a[k], a[l]);
            assert(cross(p0, a[k], a[l]) > 0);
            assert(cross(p0, b[k], b[j]) > 0);
        }
    }
}

/// Two walks that fan out from the same first point, hold no point twice
/// and hold the same points are one walk.
proof fn lemma_same_walk(a: Seq<Point>, b: Seq<Point>)
    requires
        a.len() >= 1,
        b.len() >= 1,
        a[0] == b[0],
        no_repeats(a),
        no_repeats(b),
        fan_from(a[0], a),
        fan_from(a[0], b),
        forall|i: int| 0 <= i < a.len() ==> b.contains(#[trigger] a[i]),
        forall|j: int| 0 <= j < b.len() ==> a.contains(#[trigger] b[j]),
    ensures
        a == b,
{
    let p0 = a[0];
    if a.len() > b.len() {
        let j = b.index_of(a[b.len() as int]);
        lemma_same_place(p0, a, b, j);
    }
    if b.len() > a.len() {
        let j = a.index_of(b[a.len() as int]);
        lemma_same_place(p0, a, b, j);
    }
    assert forall|k: int| 0 <= k < a.len() implies a[k] == b[k] by {
        lemma_same_place(p0, a, b, k);
    }
    assert(a =~= b);
}

/// A hull of fewer than three corners leaves no room for another hull with
/// more corners than it has.
proof fn lemma_flat_hull(points: Seq<Point>, h: Seq<Point>, k: Seq<Point>)
    requires
        is_convex_hull(points, h),
        is_convex_hull(points, k),
        points.len() >= 3,
        h.len() <= 2,
    ensures
        k.len() <= h.len(),
{
    lemma_same_pivot(points, h, k);
    let p0 = h[0];
    if k.len() > h.len() {
        let i1 = points.index_of(k[1]);
        assert(holds(h, points[i1]));
        lemma_after_pivot(points, k, 1);
        if h.len() == 2 {
            let i2 = points.index_of(k[2]);
            assert(holds(h, points[i2]));
            lemma_after_pivot(points, h, 1);
            lemma_after_pivot(points, k, 2);
            lemma_same_ray(p0, h[1], k[1], k[2]);
            assert(cross(p0, k[1], k[2]) > 0);
        }
    }
}

/// Uniqueness: a collection of points has one hull only.
pub proof fn lemma_hull_unique(points: Seq<Point>, h: Seq<Point>, k: Seq<Point>)
    requires
        is_convex_hull(points, h),
        is_convex_hull(points, k),
    ensures
        h == k,
{
    if points.len() >= 3 {
        lemma_same_pivot(points, h, k);
        if h.len() <= 2 || k.len() <= 2 {
            if h.len() <= 2 {
                lemma_flat_hull(points, h, k);
            }
            if k.len() <= 2 {
                lemma_flat_hull(points, k, h);
            }
            if h.len() == 2 {
                let ih = points.index_of(h[1]);
                let ik = points.index_of(k[1]);
                assert(holds(k, points[ih]));
                assert(holds(h, points[ik]));
                assert(on_segment(h[0], k[1], h[1]) && on_segment(h[0], h[1], k[1]));
            }
            assert(h =~= k);
        } else {
            assert forall|i: int| 0 <= i < h.len() implies k.contains(#[trigger] h[i]) by {
                lemma_corner_shared(points, h, k, i);
            }
            assert forall|j: int| 0 <= j < k.len() implies h.contains(#[trigger] k[j]) by {
                lemma_corner_shared(points, k, h, j);
            }
            lemma_same_walk(h, k);
        }
    }
}

/// A hull is a hull of its own corners.
pub proof fn lemma_hull_is_own_hull(points: Seq<Point>, h: Seq<Point>)
    requires
        is_convex_hull(points, h),
    ensures
        is_convex_hull(h, h),
{
    if points.len() >= 3 && h.len() >= 3 {
        assert forall|i: int| 0 <= i < h.len() implies !lex_lt(#[trigger] h[i], h[0]) by {
            let b = points.index_of(h[i]);
            assert(!lex_lt(points[b], h[0]));
        }
        assert forall|k: int| 0 <= k < h.len() implies holds(h, #[trigger] h[k]) by {
            let b = points.index_of(h[k]);
            assert(holds(h, points[b]));
        }
    }
}

/// Idempotence: the hull of a hull is that hull, corner by corner.
pub proof fn lemma_hull_of_hull(points: Seq<Point>, h: Seq<Point>, hh: Seq<Point>)
    requires
        is_convex_hull(points, h),
        is_convex_hull(h, hh),
    ensures
        hh == h,
        hh.to_set() == h.to_set(),
{
    lemma_hull_is_own_hull(points, h);
    lemma_hull_unique(h, h, hh);
}

} // verus!
