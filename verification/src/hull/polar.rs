//! The pivot, the polar order around it, the sort by that order and the
//! collapse of each ray to its farthest point.
use vstd::prelude::*;
use vstd::seq_lib::*;
use crate::hull::turn::{Point, cross, dist_sq, turn_sign, farther};
use crate::hull::plane::{
    lex_lt, lemma_cross_rotate, lemma_cross_degenerate, lemma_fan_transitive, lemma_same_ray,
};

verus! {

/// `p` is the lexicographically smallest point of `points`.
pub open spec fn is_pivot(points: Seq<Point>, p: Point) -> bool {
    &&& points.contains(p)
    &&& forall|i: int| 0 <= i < points.len() ==> !lex_lt(#[trigger] points[i], p)
}

/// Every point of `s` comes after `p0` in lexicographic order.
pub open spec fn all_after(p0: Point, s: Seq<Point>) -> bool {
    forall|i: int| 0 <= i < s.len() ==> lex_lt(p0, #[trigger] s[i])
}

/// `a` comes no later than `b` in the polar order around `p0`: by ascending
/// angle, and on one ray by ascending distance.
pub open spec fn polar_le(p0: Point, a: Point, b: Point) -> bool {
    cross(p0, a, b) > 0 || (cross(p0, a, b) == 0 && dist_sq(p0, a) <= dist_sq(p0, b))
}

/// `s` ascends in the polar order around `p0`.
pub open spec fn polar_sorted(p0: Point, s: Seq<Point>) -> bool {
    forall|i: int, j: int| 0 <= i < j < s.len() ==> polar_le(p0, #[trigger] s[i], #[trigger] s[j])
}

/// `s` holds points after `p0` in strictly ascending angle: no two on one ray.
pub open spec fn strict_fan(p0: Point, s: Seq<Point>) -> bool {
    &&& all_after(p0, s)
    &&& forall|i: int, j: int|
        0 <= i < j < s.len() ==> cross(p0, #[trigger] s[i], #[trigger] s[j]) > 0
}

/// `c` lies on the ray from `p0` through `q`, at least as far out as `q`.
pub open spec fn covers(p0: Point, c: Point, q: Point) -> bool {
    cross(p0, c, q) == 0 && dist_sq(p0, q) <= dist_sq(p0, c)
}

/// Some point of `kept` covers `q`.
pub open spec fn covered(p0: Point, kept: Seq<Point>, q: Point) -> bool {
    exists|k: int| 0 <= k < kept.len() && covers(p0, #[trigger] kept[k], q)
}

/// The polar order compares any two points.
pub proof fn lemma_polar_total(p0: Point, a: Point, b: Point)
    ensures
        polar_le(p0, a, b) || polar_le(p0, b, a),
{
    lemma_cross_rotate(p0, a, b);
}

/// The polar order is transitive on the points after the pivot.
pub proof fn lemma_polar_transitive(p0: Point, a: Point, b: Point, c: Point)
    requires
        lex_lt(p0, a),
        lex_lt(p0, b),
        lex_lt(p0, c),
        polar_le(p0, a, b),
        polar_le(p0, b, c),
    ensures
        polar_le(p0, a, c),
{
    lemma_fan_transitive(p0, a, b, c);
    if cross(p0, a, b) == 0 && cross(p0, b, c) == 0 {
        lemma_same_ray(p0, a, b, c);
    }
}

/// The lexicographically smallest point: the anchor of the scan.
pub fn select_pivot(points: &Vec<Point>) -> (p: Point)
    requires
        points.len() > 0,
    ensures
        is_pivot(points@, p),
{
    let mut best = points[0];
    let mut i: usize = 1;
    while i < points.len()
        invariant
            1 <= i <= points.len(),
            points@.contains(best),
            forall|k: int| 0 <= k < i ==> !lex_lt(#[trigger] points[k], best),
        decreases points.len() - i,
    {
        let q = points[i];
        if q.0 < best.0 || (q.0 == best.0 && q.1 < best.1) {
            best = q;
        }
        i += 1;
    }
    best
}

/// `s` without every occurrence of `p`, the rest in place.
pub open spec fn without(s: Seq<Point>, p: Point) -> Seq<Point>
    decreases s.len(),
{
    if s.len() == 0 {
        s
    } else if s.last() == p {
        without(s.drop_last(), p)
    } else {
        without(s.drop_last(), p).push(s.last())
    }
}

/// The points other than the pivot, in their input order.
pub fn candidates(points: &Vec<Point>, p0: Point) -> (out: Vec<Point>)
    requires
        is_pivot(points@, p0),
    ensures
        out@ == without(points@, p0),
        all_after(p0, out@),
        forall|k: int| 0 <= k < out.len() ==> points@.contains(#[trigger] out[k]),
        forall|i: int|
            0 <= i < points.len() && points[i] != p0 ==> out@.contains(#[trigger] points[i]),
{
    let mut out: Vec<Point> = Vec::new();
    let mut i: usize = 0;
    while i < points.len()
        invariant
            i <= points.len(),
            is_pivot(points@, p0),
            out@ == without(points@.take(i as int), p0),
            all_after(p0, out@),
            forall|k: int| 0 <= k < out.len() ==> points@.contains(#[trigger] out[k]),
            forall|j: int| 0 <= j < i && points[j] != p0 ==> out@.contains(#[trigger] points[j]),
        decreases points.len() - i,
    {
        let q = points[i];
        assert(points@.take(i + 1).drop_last() =~= points@.take(i as int));
        if q.0 != p0.0 || q.1 != p0.1 {
            let ghost before = out@;
            out.push(q);
            proof {
                assert(!lex_lt(points[i as int], p0));
                assert(out@[before.len() as int] == q);
                assert forall|j: int| 0 <= j < i + 1 && points[j] != p0 implies out@.contains(
                    #[trigger] points[j],
                ) by {
                    if j < i {
                        let k = choose|k: int| 0 <= k < before.len() && before[k] == points[j];
                        assert(out@[k] == points[j]);
                    }
                }
            }
        }
        i += 1;
    }
    assert(points@.take(i as int) =~= points@);
    out
}

/// Whether `a` comes no later than `b` in the polar order around `p0`.
pub fn precedes(p0: Point, a: Point, b: Point) -> (r: bool)
    ensures
        r == polar_le(p0, a, b),
{
    let t = turn_sign(p0, a, b);
    if t > 0 {
        true
    } else if t < 0 {
        false
    } else {
        !farther(p0, b, a)
    }
}

/// Merges two runs that ascend in the polar order into one.
fn merge(p0: Point, left: &Vec<Point>, right: &Vec<Point>) -> (out: Vec<Point>)
    requires
        all_after(p0, left@),
        all_after(p0, right@),
        polar_sorted(p0, left@),
        polar_sorted(p0, right@),
        left.len() + right.len() <= usize::MAX,
    ensures
        polar_sorted(p0, out@),
        out@.to_multiset() == left@.to_multiset().add(right@.to_multiset()),
{
    broadcast use {group_to_multiset_ensures, vstd::multiset::group_multiset_axioms};

    let mut out: Vec<Point> = Vec::new();
    let mut i: usize = 0;
    let mut j: usize = 0;
    assert(left@.take(0) =~= Seq::<Point>::empty());
    assert(right@.take(0) =~= Seq::<Point>::empty());
    assert(out@.to_multiset() =~= left@.take(0).to_multiset().add(right@.take(0).to_multiset()));
    while i < left.len() || j < right.len()
        invariant
            i <= left.len(),
            j <= right.len(),
            left.len() + right.len() <= usize::MAX,
            all_after(p0, left@),
            all_after(p0, right@),
            all_after(p0, out@),
            polar_sorted(p0, left@),
            polar_sorted(p0, right@),
            polar_sorted(p0, out@),
            out@.to_multiset() == left@.take(i as int).to_multiset().add(
                right@.take(j as int).to_multiset(),
            ),
            forall|k: int, x: int|
                0 <= k < out.len() && i <= x < left.len() ==> polar_le(
                    p0,
                    #[trigger] out[k],
                    #[trigger] left[x],
                ),
            forall|k: int, y: int|
                0 <= k < out.len() && j <= y < right.len() ==> polar_le(
                    p0,
                    #[trigger] out[k],
                    #[trigger] right[y],
                ),
        decreases left.len() - i + right.len() - j,
    {
        let take_left = if i == left.len() {
            false
        } else if j == right.len() {
            true
        } else {
            precedes(p0, left[i], right[j])
        };
        let ghost before = out@;
        if take_left {
            let q = left[i];
            out.push(q);
            proof {
                let lt = left@.take(i as int);
                let rt = right@.take(j as int);
                assert(left@.take(i + 1) =~= lt.push(q));
                to_multiset_build(before, q);
                to_multiset_build(lt, q);
                assert(lt.to_multiset().add(rt.to_multiset()).insert(q) =~= lt.to_multiset().insert(
                    q,
                ).add(rt.to_multiset()));
                assert forall|k: int, y: int|
                    0 <= k < out.len() && j <= y < right.len() implies polar_le(
                    p0,
                    #[trigger] out[k],
                    #[trigger] right[y],
                ) by {
                    if k == before.len() && y > j {
                        lemma_polar_transitive(p0, q, right[j as int], right[y]);
                    }
                }
            }
            i += 1;
        } else {
            let q = right[j];
            out.push(q);
            proof {
                let lt = left@.take(i as int);
                let rt = right@.take(j as int);
                assert(right@.take(j + 1) =~= rt.push(q));
                to_multiset_build(before, q);
                to_multiset_build(rt, q);
                assert(lt.to_multiset().add(rt.to_multiset()).insert(q) =~= lt.to_multiset().add(
                    rt.to_multiset().insert(q),
                ));
                assert forall|k: int, x: int|
                    0 <= k < out.len() && i <= x < left.len() implies polar_le(
                    p0,
                    #[trigger] out[k],
                    #[trigger] left[x],
                ) by {
                    if k == before.len() {
                        lemma_polar_total(p0, left[i as int], q);
                        if x > i {
                            lemma_polar_transitive(p0, q, left[i as int], left[x]);
                        }
                    }
                }
            }
            j += 1;
        }
    }
    assert(left@.take(i as int) =~= left@);
    assert(right@.take(j as int) =~= right@);
    out
}

/// Sorts the stretch `lo..hi` of `v` by the polar order around `p0`.
fn sort_range(p0: Point, v: &Vec<Point>, lo: usize, hi: usize) -> (out: Vec<Point>)
    requires
        lo <= hi <= v.len(),
        all_after(p0, v@),
    ensures
        polar_sorted(p0, out@),
        out@.to_multiset() == v@.subrange(lo as int, hi as int).to_multiset(),
    decreases hi - lo,
{
    broadcast use group_to_multiset_ensures;

    if hi - lo == 0 {
        let out: Vec<Point> = Vec::new();
        assert(v@.subrange(lo as int, hi as int) =~= out@);
        out
    } else if hi - lo == 1 {
        let mut out: Vec<Point> = Vec::new();
        out.push(v[lo]);
        assert(v@.subrange(lo as int, hi as int) =~= out@);
        out
    } else {
        let mid = lo + (hi - lo) / 2;
        let left = sort_range(p0, v, lo, mid);
        let right = sort_range(p0, v, mid, hi);
        proof {
            let whole = v@.subrange(lo as int, hi as int);
            let first = v@.subrange(lo as int, mid as int);
            let second = v@.subrange(mid as int, hi as int);
            assert(whole =~= first + second);
            lemma_multiset_commutative(first, second);
            assert forall|k: int| 0 <= k < left.len() implies lex_lt(p0, #[trigger] left[k]) by {
                assert(left@.contains(left[k]));
                assert(first.to_multiset().count(left[k]) > 0);
                assert(first.contains(left[k]));
            }
            assert forall|k: int| 0 <= k < right.len() implies lex_lt(p0, #[trigger] right[k]) by {
                assert(right@.contains(right[k]));
                assert(second.to_multiset().count(right[k]) > 0);
                assert(second.contains(right[k]));
            }
            assert(left@.to_multiset().len() == left.len());
            assert(right@.to_multiset().len() == right.len());
            assert(first.to_multiset().len() == first.len());
            assert(second.to_multiset().len() == second.len());
        }
        merge(p0, &left, &right)
    }
}

/// The points of `v` in ascending polar order around `p0`: by angle, and on
/// one ray by distance.
pub fn sort_by_angle(p0: Point, v: &Vec<Point>) -> (out: Vec<Point>)
    requires
        all_after(p0, v@),
    ensures
        polar_sorted(p0, out@),
        out@.to_multiset() == v@.to_multiset(),
{
    assert(v@.subrange(0, v.len() as int) =~= v@);
    sort_range(p0, v, 0, v.len())
}

/// Keeps, of the points on each ray from the pivot, the farthest one: a
/// nearer point on the ray of a farther one is never a corner of the hull.
pub fn farthest_per_ray(p0: Point, sorted: &Vec<Point>) -> (kept: Vec<Point>)
    requires
        all_after(p0, sorted@),
        polar_sorted(p0, sorted@),
    ensures
        strict_fan(p0, kept@),
        forall|k: int| 0 <= k < kept.len() ==> sorted@.contains(#[trigger] kept[k]),
        forall|i: int| 0 <= i < sorted.len() ==> covered(p0, kept@, #[trigger] sorted[i]),
{
    let mut kept: Vec<Point> = Vec::new();
    let mut i: usize = 0;
    while i < sorted.len()
        invariant
            i <= sorted.len(),
            all_after(p0, sorted@),
            polar_sorted(p0, sorted@),
            strict_fan(p0, kept@),
            i > 0 <==> kept.len() > 0,
            forall|k: int| 0 <= k < kept.len() ==> sorted@.contains(#[trigger] kept[k]),
            forall|j: int| 0 <= j < i ==> covered(p0, kept@, #[trigger] sorted[j]),
            i > 0 ==> covers(p0, kept[kept.len() - 1], sorted[i - 1]),
        decreases sorted.len() - i,
    {
        let q = sorted[i];
        let ghost before = kept@;
        proof {
            lemma_cross_degenerate(p0, q);
        }
        if kept.len() == 0 {
            kept.push(q);
            assert(covers(p0, kept@[0], q));
        } else {
            let n = kept.len();
            let last = kept[n - 1];
            let ghost prev = sorted[i - 1];
            proof {
                assert(polar_le(p0, sorted[i - 1], sorted[i as int]));
                lemma_same_ray(p0, last, prev, q);
            }
            if turn_sign(p0, last, q) != 0 {
                kept.push(q);
                proof {
                    assert forall|a: int, b: int| 0 <= a < b < kept.len() implies cross(
                        p0,
                        #[trigger] kept[a],
                        #[trigger] kept[b],
                    ) > 0 by {
                        if b == n && a < n - 1 {
                            lemma_fan_transitive(p0, before[a], last, q);
                        }
                    }
                    assert forall|j: int| 0 <= j < i + 1 implies covered(
                        p0,
                        kept@,
                        #[trigger] sorted[j],
                    ) by {
                        if j < i {
                            let near = sorted[j];
                            let k = choose|k: int|
                                0 <= k < before.len() && covers(p0, #[trigger] before[k], near);
                            assert(covers(p0, kept@[k], sorted[j]));
                        } else {
                            assert(covers(p0, kept@[n as int], sorted[j]));
                        }
                    }
                }
            } else if farther(p0, last, q) {
                kept.set(n - 1, q);
                proof {
                    assert forall|a: int, b: int| 0 <= a < b < kept.len() implies cross(
                        p0,
                        #[trigger] kept[a],
                        #[trigger] kept[b],
                    ) > 0 by {
                        if b == n - 1 {
                            lemma_same_ray(p0, last, q, before[a]);
                            lemma_cross_rotate(p0, before[a], last);
                            lemma_cross_rotate(p0, before[a], q);
                        }
                    }
                    assert forall|j: int| 0 <= j < i + 1 implies covered(
                        p0,
                        kept@,
                        #[trigger] sorted[j],
                    ) by {
                        if j < i {
                            let near = sorted[j];
                            let k = choose|k: int|
                                0 <= k < before.len() && covers(p0, #[trigger] before[k], near);
                            if k == n - 1 {
                                lemma_same_ray(p0, last, q, sorted[j]);
                            }
                            assert(covers(p0, kept@[k], sorted[j]));
                        } else {
                            assert(covers(p0, kept@[n - 1], sorted[j]));
                        }
                    }
                }
            } else {
                assert(covers(p0, kept@[n - 1], q));
            }
        }
        i += 1;
    }
    kept
}

} // verus!
