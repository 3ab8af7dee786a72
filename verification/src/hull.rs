//! Convex hull of a finite collection of grid points by a Graham scan.
//!
//! The hull is the boundary walk of the smallest convex polygon that holds
//! every input point: it starts at the lexicographically smallest point and
//! goes round counter-clockwise, corner by corner. All comparisons are exact:
//! angles are compared by the sign of a cross product and distances by their
//! squares, so no rounding decides a tie.
pub mod turn;
pub mod plane;
pub mod polar;
pub mod scan;
pub mod laws;

use vstd::prelude::*;
use vstd::seq_lib::*;
use crate::hull::turn::{Point, cross};
use crate::hull::plane::{
    lex_lt, on_segment, lemma_cross_rotate, lemma_cross_degenerate, lemma_segment_inside,
    lemma_nearer_on_segment,
};
use crate::hull::polar::{
    is_pivot, covers, covered, select_pivot, candidates, sort_by_angle, farthest_per_ray,
};
use crate::hull::scan::{fan_from, left_turning, turn_at, edge_side, within, scan};

verus! {

/// The index after `i` on a closed walk of `n` points.
pub open spec fn next_index(n: int, i: int) -> int {
    if i + 1 == n {
        0
    } else {
        i + 1
    }
}

/// The turn that the closed walk `h` makes at the corner after index `i`.
pub open spec fn corner_turn(h: Seq<Point>, i: int) -> int {
    let n = h.len() as int;
    cross(h[i], h[next_index(n, i)], h[next_index(n, next_index(n, i))])
}

/// The side of the `i`-th edge of the closed walk `h` on which `q` lies:
/// positive to its left, zero on its line.
pub open spec fn wall_side(h: Seq<Point>, i: int, q: Point) -> int {
    cross(h[i], h[next_index(h.len() as int, i)], q)
}

/// Every corner of the closed walk `h` is a strict left turn, the two corners
/// that wrap around its end included.
pub open spec fn strictly_convex(h: Seq<Point>) -> bool {
    forall|i: int| 0 <= i < h.len() ==> #[trigger] corner_turn(h, i) > 0
}

/// `q` lies inside or on the boundary of the closed walk `h`: to the left of,
/// or on, every edge.
pub open spec fn encloses(h: Seq<Point>, q: Point) -> bool {
    forall|i: int| 0 <= i < h.len() ==> #[trigger] wall_side(h, i, q) >= 0
}

/// `q` lies in what the walk `h` spans: the point itself, the segment, or the
/// polygon.
pub open spec fn holds(h: Seq<Point>, q: Point) -> bool {
    if h.len() == 1 {
        q == h[0]
    } else if h.len() == 2 {
        on_segment(h[0], h[1], q)
    } else {
        encloses(h, q)
    }
}

/// No point occurs twice in `h`.
pub open spec fn no_repeats(h: Seq<Point>) -> bool {
    forall|i: int, j: int| 0 <= i < j < h.len() ==> #[trigger] h[i] != #[trigger] h[j]
}

/// `h` is the convex hull of `points`.
///
/// Fewer than three points are their own hull, as they come. Otherwise `h`
/// starts at the lexicographically smallest point, holds input points only
/// and none twice, goes round counter-clockwise in strictly ascending angle
/// about its first point, turns strictly left at every corner, and holds every
/// input point inside or on its boundary.
pub open spec fn is_convex_hull(points: Seq<Point>, h: Seq<Point>) -> bool {
    if points.len() < 3 {
        h == points
    } else {
        &&& h.len() >= 1
        &&& is_pivot(points, h[0])
        &&& forall|i: int| 0 <= i < h.len() ==> points.contains(#[trigger] h[i])
        &&& no_repeats(h)
        &&& fan_from(h[0], h)
        &&& h.len() >= 3 ==> strictly_convex(h)
        &&& forall|k: int| 0 <= k < points.len() ==> holds(h, #[trigger] points[k])
    }
}

/// A chain that fans out from its first point and turns left all along also
/// turns left at the two corners that close it.
proof fn lemma_closed_walk_convex(h: Seq<Point>)
    requires
        h.len() >= 3,
        fan_from(h[0], h),
        left_turning(h),
    ensures
        strictly_convex(h),
{
    let n = h.len() as int;
    assert forall|i: int| 0 <= i < n implies #[trigger] corner_turn(h, i) > 0 by {
        if i + 2 < n {
            assert(turn_at(h, i) > 0);
        } else if i == n - 2 {
            lemma_cross_rotate(h[0], h[n - 2], h[n - 1]);
        } else {
            lemma_cross_rotate(h[0], h[1], h[n - 1]);
        }
    }
}

/// The first point of a fan lies inside or on the closed walk.
proof fn lemma_pivot_enclosed(h: Seq<Point>)
    requires
        h.len() >= 3,
        fan_from(h[0], h),
    ensures
        encloses(h, h[0]),
{
    let n = h.len() as int;
    assert forall|i: int| 0 <= i < n implies #[trigger] wall_side(h, i, h[0]) >= 0 by {
        if i == 0 {
            lemma_cross_degenerate(h[0], h[1]);
        } else if i == n - 1 {
            lemma_cross_degenerate(h[n - 1], h[0]);
        } else {
            lemma_cross_rotate(h[0], h[i], h[i + 1]);
        }
    }
}

/// A point on the segment from the first corner to a point within the walk
/// lies inside or on the walk.
proof fn lemma_covered_enclosed(h: Seq<Point>, c: Point, q: Point)
    requires
        h.len() >= 3,
        fan_from(h[0], h),
        within(h, c),
        on_segment(h[0], c, q),
    ensures
        encloses(h, q),
{
    let n = h.len() as int;
    lemma_pivot_enclosed(h);
    assert forall|i: int| 0 <= i < n implies #[trigger] wall_side(h, i, q) >= 0 by {
        assert(wall_side(h, i, h[0]) >= 0);
        if i < n - 1 {
            assert(edge_side(h, i, c) >= 0);
        }
        lemma_segment_inside(h[i], h[next_index(n, i)], h[0], c, q);
    }
}

/// A copy of `points`.
fn copy_of(points: &Vec<Point>) -> (out: Vec<Point>)
    ensures
        out@ == points@,
{
    let mut out: Vec<Point> = Vec::new();
    let mut i: usize = 0;
    while i < points.len()
        invariant
            i <= points.len(),
            out@ == points@.take(i as int),
        decreases points.len() - i,
    {
        out.push(points[i]);
        assert(points@.take(i + 1) =~= points@.take(i as int).push(points[i as int]));
        i += 1;
    }
    assert(points@.take(i as int) =~= points@);
    out
}

/// The convex hull of `points`, as a walk round its corners: it starts at the
/// lexicographically smallest point and goes counter-clockwise. Points inside
/// the hull and points on its edges are no corners. Fewer than three
/// points come back unchanged. Duplicates are tolerated.
pub fn convex_hull(points: &Vec<(usize, usize)>) -> (hull: Vec<(usize, usize)>)
    ensures
        is_convex_hull(points@, hull@),
{
    if points.len() < 3 {
        return copy_of(points);
    }
    let p0 = select_pivot(points);
    let others = candidates(points, p0);
    let sorted = sort_by_angle(p0, &others);
    proof {
        broadcast use group_to_multiset_ensures;

        assert forall|i: int| 0 <= i < sorted.len() implies lex_lt(p0, #[trigger] sorted[i]) by {
            assert(sorted@.contains(sorted[i]));
            assert(sorted@.to_multiset().count(sorted[i]) > 0);
            assert(others@.contains(sorted[i]));
        }
    }
    let kept = farthest_per_ray(p0, &sorted);
    let hull = scan(p0, &kept);
    proof {
        broadcast use group_to_multiset_ensures;

        let h = hull@;
        let n = h.len() as int;
        assert forall|i: int| 0 <= i < n implies points@.contains(#[trigger] h[i]) by {
            if i > 0 {
                assert(kept@.contains(h[i]));
                assert(sorted@.contains(h[i]));
                assert(sorted@.to_multiset().count(h[i]) > 0);
                assert(others@.contains(h[i]));
            }
        }
        assert forall|i: int, j: int| 0 <= i < j < n implies #[trigger] h[i] != #[trigger] h[j] by {
            assert(kept@.contains(h[j]));
            if i > 0 {
                lemma_cross_degenerate(p0, h[i]);
            }
        }
        if n >= 3 {
            lemma_closed_walk_convex(h);
        }
        if n == 2 && kept.len() >= 2 {
            lemma_cross_degenerate(p0, kept[0]);
            assert(cross(p0, kept[0], kept[kept.len() - 1]) > 0);
        }
        assert forall|k: int| 0 <= k < points.len() implies holds(h, #[trigger] points[k]) by {
            let q = points[k];
            if q == p0 {
                if n == 2 {
                    reveal(cross);
                    lemma_cross_degenerate(p0, h[1]);
                    assert(lex_lt(p0, h[1])) by {
                        assert(kept@.contains(h[1]));
                    }
                } else if n >= 3 {
                    lemma_pivot_enclosed(h);
                }
            } else {
                assert(others@.contains(q));
                assert(others@.to_multiset().count(q) > 0);
                assert(sorted@.contains(q));
                let a = sorted@.index_of(q);
                assert(covered(p0, kept@, sorted[a]));
                let m = choose|m: int| 0 <= m < kept.len() && covers(p0, #[trigger] kept[m], q);
                let c = kept[m];
                lemma_nearer_on_segment(p0, c, q);
                if n >= 3 {
                    lemma_covered_enclosed(h, c, q);
                }
            }
        }
    }
    hull
}

} // verus!
