//! The monotonic stack: a walk over the candidates in angular order that
//! keeps a strictly convex, counter-clockwise chain.
use vstd::prelude::*;
use crate::hull::turn::{Point, cross, turn_sign};
use crate::hull::plane::{
    lemma_cross_rotate, lemma_cross_degenerate, lemma_wedge, lemma_left_of_earlier_edge,
};
use crate::hull::polar::strict_fan;

verus! {

/// The turn that the chain `s` makes at the three points from index `j` on.
pub open spec fn turn_at(s: Seq<Point>, j: int) -> int {
    cross(s[j], s[j + 1], s[j + 2])
}

/// The side of the edge of `s` that leaves index `j` on which `q` lies.
pub open spec fn edge_side(s: Seq<Point>, j: int, q: Point) -> int {
    cross(s[j], s[j + 1], q)
}

/// Every three consecutive points of the chain `s` make a strict left turn.
pub open spec fn left_turning(s: Seq<Point>) -> bool {
    forall|j: int| 0 <= j && j + 2 < s.len() ==> #[trigger] turn_at(s, j) > 0
}

/// The points of `s` after its first stand in strictly ascending angle around `p0`.
pub open spec fn fan_from(p0: Point, s: Seq<Point>) -> bool {
    forall|a: int, b: int| 1 <= a < b < s.len() ==> cross(p0, #[trigger] s[a], #[trigger] s[b]) > 0
}

/// `q` is not to the right of any edge of the chain `s`.
pub open spec fn left_of_path(s: Seq<Point>, q: Point) -> bool {
    forall|j: int| 0 <= j && j + 1 < s.len() ==> #[trigger] edge_side(s, j, q) >= 0
}

/// `q` is not to the right of any edge of the closed walk `s`: the chain and
/// the edge from its last point back to its first.
pub open spec fn within(s: Seq<Point>, q: Point) -> bool {
    left_of_path(s, q) && cross(s[s.len() - 1], s[0], q) >= 0
}

/// `q` is one of the first `k` candidates.
pub open spec fn seen(cands: Seq<Point>, k: int, q: Point) -> bool {
    exists|i: int| 0 <= i < k && #[trigger] cands[i] == q
}

/// A point later in the fan than the whole chain, and left of its last edge,
/// is left of every edge of the chain.
proof fn lemma_left_of_whole_path(p0: Point, s: Seq<Point>, c: Point, j: int)
    requires
        s.len() >= 2,
        s[0] == p0,
        fan_from(p0, s),
        left_turning(s),
        forall|a: int| 1 <= a < s.len() ==> cross(p0, #[trigger] s[a], c) > 0,
        cross(s[s.len() - 2], s[s.len() - 1], c) > 0,
        0 <= j <= s.len() - 2,
    ensures
        cross(s[j], s[j + 1], c) > 0,
    decreases s.len() - j,
{
    if j < s.len() - 2 {
        lemma_left_of_whole_path(p0, s, c, j + 1);
        if j > 0 {
            assert(turn_at(s, j) > 0);
            lemma_left_of_earlier_edge(p0, s[j], s[j + 1], s[j + 2], c);
        }
    }
}

/// The Graham scan proper. Walks the candidates, which stand in strictly
/// ascending angle around `p0`, and keeps a stack that starts at `p0`; before a
/// candidate is pushed, every top that would not make a strict left turn with
/// it is popped.
pub fn scan(p0: Point, cands: &Vec<Point>) -> (stack: Vec<Point>)
    requires
        strict_fan(p0, cands@),
    ensures
        stack.len() >= 1,
        stack[0] == p0,
        cands.len() == 0 ==> stack.len() == 1,
        cands.len() > 0 ==> stack.len() >= 2 && stack[1] == cands[0] && stack[stack.len() - 1]
            == cands[cands.len() - 1],
        forall|j: int| 1 <= j < stack.len() ==> cands@.contains(#[trigger] stack[j]),
        fan_from(p0, stack@),
        left_turning(stack@),
        forall|i: int| 0 <= i < cands.len() ==> within(stack@, #[trigger] cands[i]),
{
    let mut stack: Vec<Point> = Vec::new();
    stack.push(p0);
    let mut k: usize = 0;
    while k < cands.len()
        invariant
            k <= cands.len(),
            strict_fan(p0, cands@),
            stack.len() >= 1,
            stack[0] == p0,
            k == 0 ==> stack.len() == 1,
            k > 0 ==> stack.len() >= 2 && stack[1] == cands[0] && stack[stack.len() - 1] == cands[k
                - 1],
            forall|j: int| 1 <= j < stack.len() ==> seen(cands@, k as int, #[trigger] stack[j]),
            fan_from(p0, stack@),
            left_turning(stack@),
            forall|i: int| 0 <= i < k ==> within(stack@, #[trigger] cands[i]),
        decreases cands.len() - k,
    {
        let c = cands[k];
        let ghost mut x = p0;
        let ghost mut popped = false;
        proof {
            if k > 0 {
                let top = stack[stack.len() - 1];
                assert(cross(p0, cands[k - 1], cands[k as int]) > 0);
                lemma_cross_rotate(p0, top, c);
                if stack.len() >= 3 {
                    lemma_cross_rotate(p0, stack[stack.len() - 2], top);
                }
            }
        }
        while stack.len() > 1 && turn_sign(
            stack[stack.len() - 2],
            stack[stack.len() - 1],
            c,
        ) <= 0
            invariant
                k < cands.len(),
                c == cands[k as int],
                strict_fan(p0, cands@),
                stack.len() >= 1,
                stack[0] == p0,
                k == 0 ==> stack.len() == 1,
                k > 0 ==> stack.len() >= 2 && stack[1] == cands[0],
                forall|j: int| 1 <= j < stack.len() ==> seen(cands@, k as int, #[trigger] stack[j]),
                fan_from(p0, stack@),
                left_turning(stack@),
                forall|i: int| 0 <= i < k ==> left_of_path(stack@, #[trigger] cands[i]),
                forall|i: int|
                    0 <= i < k ==> cross(stack[stack.len() - 1], x, #[trigger] cands[i]) >= 0,
                stack.len() >= 2 ==> cross(stack[stack.len() - 1], x, c) <= 0,
                !popped ==> x == p0,
                stack.len() >= 2 && (popped || stack.len() >= 3) ==> cross(
                    stack[stack.len() - 2],
                    stack[stack.len() - 1],
                    x,
                ) > 0,
            decreases stack.len(),
        {
            let ghost before = stack@;
            let ghost n = stack.len() as int;
            proof {
                if n == 2 {
                    let i = choose|i: int| 0 <= i < k && #[trigger] cands[i] == before[1];
                    assert(cross(p0, cands[i], cands[k as int]) > 0);
                }
                assert(n >= 3);
                x = before[n - 1];
                popped = true;
                assert(turn_at(before, n - 3) > 0);
                assert forall|i: int| 0 <= i < k implies cross(
                    before[n - 2],
                    x,
                    #[trigger] cands[i],
                ) >= 0 by {
                    assert(left_of_path(before, cands[i]));
                    assert(edge_side(before, n - 2, cands[i]) >= 0);
                }
            }
            stack.pop();
            proof {
                assert(stack@ =~= before.take(n - 1));
                assert forall|i: int| 0 <= i < k implies left_of_path(
                    stack@,
                    #[trigger] cands[i],
                ) by {
                    assert(left_of_path(before, cands[i]));
                    assert forall|j: int| 0 <= j && j + 1 < stack.len() implies #[trigger]
                        edge_side(stack@, j, cands[i]) >= 0 by {
                        assert(edge_side(before, j, cands[i]) >= 0);
                    }
                }
                assert forall|j: int| 0 <= j && j + 2 < stack.len() implies #[trigger] turn_at(
                    stack@,
                    j,
                ) > 0 by {
                    assert(turn_at(before, j) > 0);
                }
            }
        }
        let ghost before = stack@;
        let ghost n = stack.len() as int;
        stack.push(c);
        proof {
            assert(stack@ =~= before.push(c));
            assert forall|a: int| 1 <= a < n implies cross(p0, #[trigger] before[a], c) > 0 by {
                let i = choose|i: int| 0 <= i < k && #[trigger] cands[i] == before[a];
                assert(cross(p0, cands[i], cands[k as int]) > 0);
            }
            assert forall|j: int| 1 <= j < stack.len() implies seen(
                cands@,
                k + 1,
                #[trigger] stack[j],
            ) by {
                if j < n {
                    let i = choose|i: int| 0 <= i < k && #[trigger] cands[i] == before[j];
                    assert(cands[i] == stack[j]);
                } else {
                    assert(cands[k as int] == stack[j]);
                }
            }
            lemma_cross_degenerate(c, p0);
            lemma_cross_degenerate(p0, c);
            if n >= 2 {
                lemma_cross_degenerate(before[n - 1], c);
            }
            assert forall|j: int| 0 <= j && j + 2 < stack.len() implies #[trigger] turn_at(
                stack@,
                j,
            ) > 0 by {
                if j + 2 < n {
                    assert(turn_at(before, j) > 0);
                }
            }
            assert forall|i: int| 0 <= i < k + 1 implies within(stack@, #[trigger] cands[i]) by {
                let q = cands[i];
                if i < k {
                    assert(cross(p0, cands[i], cands[k as int]) > 0);
                    lemma_cross_rotate(p0, q, c);
                    assert(left_of_path(before, q));
                    if popped || n >= 3 {
                        assert(edge_side(before, n - 2, q) >= 0);
                        lemma_wedge(before[n - 2], before[n - 1], x, c, q);
                    } else {
                        // The stack holds the pivot and the first candidate alone.
                        assert(n == 2);
                        assert(edge_side(before, 0, q) >= 0);
                        lemma_cross_rotate(p0, before[1], q);
                        if i > 0 {
                            assert(cross(p0, cands[0], cands[i]) > 0);
                        }
                        lemma_cross_degenerate(c, q);
                    }
                    assert(left_of_path(stack@, q)) by {
                        assert forall|j: int| 0 <= j && j + 1 < stack.len() implies #[trigger]
                            edge_side(stack@, j, q) >= 0 by {
                            if j + 1 < n {
                                assert(edge_side(before, j, q) >= 0);
                            }
                        }
                    }
                } else {
                    assert(left_of_path(stack@, q)) by {
                        assert forall|j: int| 0 <= j && j + 1 < stack.len() implies #[trigger]
                            edge_side(stack@, j, q) >= 0 by {
                            if j + 1 < n {
                                lemma_left_of_whole_path(p0, before, c, j);
                            }
                        }
                    }
                }
            }
        }
        k += 1;
    }
    proof {
        assert forall|j: int| 1 <= j < stack.len() implies cands@.contains(#[trigger] stack[j]) by {
            let i = choose|i: int| 0 <= i < k && #[trigger] cands[i] == stack[j];
            assert(cands@[i] == stack[j]);
        }
    }
    stack
}

} // verus!
