//! Regions of a labelled grid: for each label the area, the perimeter and the
//! number of straight sides of a region of cells that carry it.
//!
//! A region is a set of cells with one label that hang together by their
//! edges. The grid is read row by row; where several regions carry one
//! label, the one that is met last is reported.
use vstd::prelude::*;
use vstd::set::fold::{lemma_fold_empty, lemma_fold_insert, is_fun_commutative};
use vstd::set_lib::lemma_len_subset;
use vstd::std_specs::cmp::PartialEqSpec;
use vstd::std_specs::hash::obeys_key_model;
use vstd::wrapping::usize_specs::wrapping_sub;
use std::collections::{HashMap, HashSet, VecDeque};
use std::hash::Hash;

verus! {

/// A cell of the grid: row, then column.
pub type Cell = (usize, usize);

/// What was measured of one region.
#[derive(Debug, Clone, PartialEq)]
pub struct RegionProperties {
    /// The number of cells.
    pub area: u64,
    /// The number of cell edges on the boundary.
    pub perimeter: u64,
    /// The number of corners of the boundary, which is its number of straight sides.
    pub sides: u64,
}

impl RegionProperties {
    /// The properties of a region without cells.
    pub fn new() -> (r: Self)
        ensures
            r.area == 0,
            r.perimeter == 0,
            r.sides == 0,
    {
        Self { area: 0, perimeter: 0, sides: 0 }
    }
}

/// The labels compare as plain values do: `==` in code is equality.
pub open spec fn plain_equality<T: PartialEq>() -> bool {
    &&& T::obeys_eq_spec()
    &&& forall|a: T, b: T| #[trigger] a.eq_spec(&b) <==> a == b
}

/// The labels compare, hash and clone as plain values do: `==` in code is
/// equality, and a clone equals what it was made of.
pub open spec fn plain<T: Clone + PartialEq>() -> bool {
    &&& plain_equality::<T>()
    &&& obeys_key_model::<T>()
    &&& forall|a: T, b: T| #[trigger] cloned(a, b) ==> a == b
}

/// The number of columns: the length of the first row.
pub open spec fn width<T>(g: Seq<Vec<T>>) -> int {
    if g.len() == 0 {
        0
    } else {
        g[0].len() as int
    }
}

/// No row is shorter than the first. What a longer row holds beyond the
/// width is not part of the grid.
pub open spec fn well_formed<T>(g: Seq<Vec<T>>) -> bool {
    &&& g.len() <= usize::MAX
    &&& forall|i: int| 0 <= i < g.len() ==> (#[trigger] g[i]).len() >= width(g)
}

/// `c` is a cell of the grid.
pub open spec fn in_grid<T>(g: Seq<Vec<T>>, c: Cell) -> bool {
    c.0 < g.len() && c.1 < width(g)
}

/// The label of the cell `c`.
pub open spec fn label<T>(g: Seq<Vec<T>>, c: Cell) -> T {
    g[c.0 as int][c.1 as int]
}

/// `c` is a cell of the grid and carries the label `t`.
pub open spec fn same_region<T>(g: Seq<Vec<T>>, c: Cell, t: T) -> bool {
    in_grid(g, c) && label(g, c) == t
}

/// The four places that share an edge with `c`: above, left, below, right. A
/// place before row or column zero is given the largest coordinate, which no
/// grid has.
pub open spec fn adjacent_cells(c: Cell) -> Seq<Cell> {
    seq![
        (wrapping_sub(c.0, 1), c.1),
        (c.0, wrapping_sub(c.1, 1)),
        ((c.0 + 1) as usize, c.1),
        (c.0, (c.1 + 1) as usize),
    ]
}

/// The four places that share only a corner with `c`, each between two
/// neighbours of `adjacent_cells`: the `i`-th lies between the `i`-th and the
/// next.
pub open spec fn diagonal_cells(c: Cell) -> Seq<Cell> {
    seq![
        (wrapping_sub(c.0, 1), wrapping_sub(c.1, 1)),
        ((c.0 + 1) as usize, wrapping_sub(c.1, 1)),
        ((c.0 + 1) as usize, (c.1 + 1) as usize),
        (wrapping_sub(c.0, 1), (c.1 + 1) as usize),
    ]
}

/// `a` and `b` share an edge.
pub open spec fn next_to(a: Cell, b: Cell) -> bool {
    ||| a.0 == b.0 && (a.1 + 1 == b.1 || b.1 + 1 == a.1)
    ||| a.1 == b.1 && (a.0 + 1 == b.0 || b.0 + 1 == a.0)
}

/// The step of the walk `path` that leaves its `i`-th cell goes to a neighbour.
pub open spec fn hop(path: Seq<Cell>, i: int) -> bool {
    next_to(path[i], path[i + 1])
}

/// `path` is a walk from cell to neighbour through cells of the grid that
/// all carry the label of its first.
pub open spec fn is_walk<T>(g: Seq<Vec<T>>, path: Seq<Cell>) -> bool {
    &&& path.len() > 0
    &&& forall|i: int| 0 <= i < path.len() ==> same_region(g, #[trigger] path[i], label(g, path[0]))
    &&& forall|i: int| 0 <= i < path.len() - 1 ==> #[trigger] hop(path, i)
}

/// `path` is a walk from `a` to `b`.
pub open spec fn walks<T>(g: Seq<Vec<T>>, path: Seq<Cell>, a: Cell, b: Cell) -> bool {
    is_walk(g, path) && path[0] == a && path[path.len() - 1] == b
}

/// `a` and `b` lie in one region: a walk leads from one to the other.
pub open spec fn linked<T>(g: Seq<Vec<T>>, a: Cell, b: Cell) -> bool {
    exists|path: Seq<Cell>| #[trigger] walks(g, path, a, b)
}

/// The region of the cell `root`.
pub open spec fn region_of<T>(g: Seq<Vec<T>>, root: Cell) -> Set<Cell> {
    Set::new(|c: Cell| linked(g, root, c))
}

/// One where `b` holds, else zero.
pub open spec fn one_if(b: bool) -> nat {
    if b {
        1
    } else {
        0
    }
}

/// The number of edges of `c` beyond which the label is not `t`.
pub open spec fn borders<T>(g: Seq<Vec<T>>, t: T, c: Cell) -> nat {
    let a = adjacent_cells(c);
    one_if(!same_region(g, a[0], t)) + one_if(!same_region(g, a[1], t)) + one_if(
        !same_region(g, a[2], t),
    ) + one_if(!same_region(g, a[3], t))
}

/// The boundary of the region labelled `t` turns at the `i`-th corner of
/// `c`: outward where neither neighbour at that corner carries `t`, inward
/// where both do and the cell between them does not.
pub open spec fn corner_at<T>(g: Seq<Vec<T>>, t: T, c: Cell, i: int) -> bool {
    let a = adjacent_cells(c);
    let d = diagonal_cells(c);
    let first = same_region(g, a[i], t);
    let second = same_region(g, a[(i + 1) % 4], t);
    (!first && !second) || (first && second && !same_region(g, d[i], t))
}

/// The number of corners of `c` at which the boundary turns.
pub open spec fn corners<T>(g: Seq<Vec<T>>, t: T, c: Cell) -> nat {
    one_if(corner_at(g, t, c, 0)) + one_if(corner_at(g, t, c, 1)) + one_if(corner_at(g, t, c, 2))
        + one_if(corner_at(g, t, c, 3))
}

/// The sum of `f` over the cells of `region`.
pub open spec fn total(region: Set<Cell>, f: spec_fn(Cell) -> nat) -> nat {
    region.fold(0nat, |sum: nat, c: Cell| sum + f(c))
}

/// `borders` as a function of the cell.
pub open spec fn borders_of<T>(g: Seq<Vec<T>>, t: T) -> spec_fn(Cell) -> nat {
    |c: Cell| borders(g, t, c)
}

/// `corners` as a function of the cell.
pub open spec fn corners_of<T>(g: Seq<Vec<T>>, t: T) -> spec_fn(Cell) -> nat {
    |c: Cell| corners(g, t, c)
}

/// `p` holds the measures of `region`, whose cells carry `t`.
pub open spec fn describes<T>(
    p: RegionProperties,
    g: Seq<Vec<T>>,
    t: T,
    region: Set<Cell>,
) -> bool {
    &&& p.area == region.len()
    &&& p.perimeter == total(region, borders_of(g, t))
    &&& p.sides == total(region, corners_of(g, t))
}

/// `a` comes before `b` as the grid is read: row by row, each from the left.
pub open spec fn reads_before(a: Cell, b: Cell) -> bool {
    a.0 < b.0 || (a.0 == b.0 && a.1 < b.1)
}

/// `r` is the cell of its region that is read first.
pub open spec fn is_root<T>(g: Seq<Vec<T>>, r: Cell) -> bool {
    in_grid(g, r) && forall|c: Cell| #[trigger] linked(g, r, c) ==> !reads_before(c, r)
}

/// Of the regions that carry its label, that of `r` is read last.
pub open spec fn is_last_root<T>(g: Seq<Vec<T>>, r: Cell) -> bool {
    is_root(g, r) && forall|s: Cell|
        #[trigger] is_root(g, s) && label(g, s) == label(g, r) ==> !reads_before(r, s)
}

/// What `find_properties_of_subregions` reports of the grid `g`: an entry for
/// each label that occurs, and under a label the measures of the region with
/// it that is read last.
pub open spec fn reports<T>(g: Seq<Vec<T>>, m: Map<T, RegionProperties>) -> bool {
    &&& forall|t: T| #[trigger]
        m.contains_key(t) <==> exists|c: Cell| in_grid(g, c) && #[trigger] label(g, c) == t
    &&& forall|r: Cell| #[trigger]
        is_last_root(g, r) ==> m.contains_key(label(g, r)) && describes(
            m[label(g, r)],
            g,
            label(g, r),
            region_of(g, r),
        )
}

/// Being in one region is reflexive, symmetric and transitive, and goes on
/// to a neighbour with the same label.
pub proof fn lemma_linked<T>(g: Seq<Vec<T>>, a: Cell, b: Cell, c: Cell)
    ensures
        in_grid(g, a) ==> linked(g, a, a),
        linked(g, a, b) ==> linked(g, b, a) && same_region(g, b, label(g, a)) && in_grid(g, a),
        linked(g, a, b) && linked(g, b, c) ==> linked(g, a, c),
        linked(g, a, b) && next_to(b, c) && same_region(g, c, label(g, a)) ==> linked(g, a, c),
{
    if in_grid(g, a) {
        assert(walks(g, seq![a], a, a));
    }
    if linked(g, a, b) {
        let p = choose|p: Seq<Cell>| #[trigger] walks(g, p, a, b);
        let n = p.len() as int;
        assert(same_region(g, p[n - 1], label(g, a)));
        assert(same_region(g, p[0], label(g, a)));
        let back = p.reverse();
        assert forall|i: int| 0 <= i < back.len() - 1 implies #[trigger] hop(back, i) by {
            assert(hop(p, n - 2 - i));
        }
        assert(walks(g, back, b, a));
        if linked(g, b, c) {
            let q = choose|q: Seq<Cell>| #[trigger] walks(g, q, b, c);
            let whole = p.drop_last() + q;
            assert forall|i: int| 0 <= i < whole.len() - 1 implies #[trigger] hop(whole, i) by {
                if i < n - 1 {
                    assert(hop(p, i));
                } else {
                    assert(hop(q, i - (n - 1)));
                }
            }
            assert forall|i: int| 0 <= i < whole.len() implies same_region(
                g,
                #[trigger] whole[i],
                label(g, whole[0]),
            ) by {
                if i < n - 1 {
                    assert(same_region(g, p[i], label(g, a)));
                } else {
                    assert(same_region(g, q[i - (n - 1)], label(g, b)));
                }
            }
            assert(walks(g, whole, a, c));
        }
        if next_to(b, c) && same_region(g, c, label(g, a)) {
            let on = p.push(c);
            assert forall|i: int| 0 <= i < on.len() - 1 implies #[trigger] hop(on, i) by {
                if i < n - 1 {
                    assert(hop(p, i));
                }
            }
            assert(walks(g, on, a, c));
        }
    }
}

/// A neighbour in the grid is one of the four adjacent places, and each
/// adjacent place in the grid is a neighbour.
pub proof fn lemma_adjacent<T>(g: Seq<Vec<T>>, a: Cell, b: Cell)
    requires
        g.len() <= usize::MAX,
        in_grid(g, a),
    ensures
        next_to(a, b) ==> exists|i: int| 0 <= i < 4 && #[trigger] adjacent_cells(a)[i] == b,
        forall|i: int| 0 <= i < 4 && in_grid(g, #[trigger] adjacent_cells(a)[i]) ==> next_to(
            a,
            adjacent_cells(a)[i],
        ),
{
    let s = adjacent_cells(a);
    if next_to(a, b) {
        assert(s[0] == b || s[1] == b || s[2] == b || s[3] == b);
    }
}

/// The cells of a grid of `h` rows and `w` columns.
pub open spec fn cells(h: nat, w: nat) -> Set<Cell> {
    Set::new(|c: Cell| c.0 < h && c.1 < w)
}

/// The cells of the first `n` places in reading order, `w` to a row.
spec fn first_cells(n: nat, w: nat) -> Set<Cell> {
    Set::new(|c: Cell| c.1 < w && c.0 * w + c.1 < n)
}

/// The first `n` places hold `n` cells.
proof fn lemma_first_cells(n: nat, w: nat)
    requires
        0 < w <= usize::MAX + 1,
        n <= (usize::MAX + 1) * w,
    ensures
        first_cells(n, w).finite(),
        first_cells(n, w).len() == n,
    decreases n,
{
    if n == 0 {
        assert(first_cells(n, w) =~= Set::<Cell>::empty());
    } else {
        let k = (n - 1) as nat;
        assert(k <= (usize::MAX + 1) * w) by (nonlinear_arith)
            requires
                k < n,
                n <= (usize::MAX + 1) * w,
        ;
        lemma_first_cells(k, w);
        let q = k as int / w as int;
        let r = k as int % w as int;
        vstd::arithmetic::div_mod::lemma_fundamental_div_mod(k as int, w as int);
        assert(0 <= r < w) by (nonlinear_arith)
            requires
                r == k as int % w as int,
                w > 0,
        ;
        assert(0 <= q <= usize::MAX) by (nonlinear_arith)
            requires
                k == w * q + r,
                0 <= r < w,
                k < (usize::MAX + 1) * w,
                k >= 0,
        ;
        let last: Cell = (q as usize, r as usize);
        assert(w * q == q * w) by (nonlinear_arith);
        assert forall|c: Cell| first_cells(n, w).contains(c) <==> first_cells(k, w).insert(
            last,
        ).contains(c) by {
            if c.1 < w && c.0 * w + c.1 == k {
                assert(c.0 == q && c.1 == r) by (nonlinear_arith)
                    requires
                        c.0 * w + c.1 == q * w + r,
                        0 <= c.1 < w,
                        0 <= r < w,
                ;
            }
        }
        assert(first_cells(n, w) =~= first_cells(k, w).insert(last));
        assert(last.0 * w + last.1 == k);
        assert(!first_cells(k, w).contains(last));
    }
}

/// A grid of `h` rows and `w` columns has `h * w` cells.
pub proof fn lemma_cells_count(h: nat, w: nat)
    requires
        h <= usize::MAX + 1,
        w <= usize::MAX + 1,
    ensures
        cells(h, w).finite(),
        cells(h, w).len() == h * w,
{
    if w == 0 {
        assert(cells(h, w) =~= Set::<Cell>::empty());
        assert(h * w == 0) by (nonlinear_arith)
            requires
                w == 0,
        ;
    } else {
        assert(h * w <= (usize::MAX + 1) * w) by (nonlinear_arith)
            requires
                h <= usize::MAX + 1,
        ;
        lemma_first_cells(h * w, w);
        assert forall|c: Cell| cells(h, w).contains(c) <==> first_cells(h * w, w).contains(c) by {
            if c.1 < w {
                assert(c.0 < h <==> c.0 * w + c.1 < h * w) by (nonlinear_arith)
                    requires
                        0 <= c.1 < w,
                        c.0 >= 0,
                        h >= 0,
                ;
            }
        }
        assert(cells(h, w) =~= first_cells(h * w, w));
    }
}

/// The sum over a region grows by the value at a cell that joins it, and the
/// sum over no cells is zero.
proof fn lemma_total_insert(region: Set<Cell>, f: spec_fn(Cell) -> nat, c: Cell)
    requires
        region.finite(),
        !region.contains(c),
    ensures
        total(region.insert(c), f) == total(region, f) + f(c),
        total(Set::<Cell>::empty(), f) == 0,
{
    let add = |sum: nat, c: Cell| sum + f(c);
    assert(is_fun_commutative(add));
    lemma_fold_insert(region, 0nat, add, c);
    lemma_fold_empty::<Cell, nat>(0nat, add);
}

/// Whether the place `(x, y)` is a cell of the grid with the label `region`.
pub fn is_same_region<T: Eq + Hash + Clone>(
    grid: &Vec<Vec<T>>,
    x: usize,
    y: usize,
    region: &T,
) -> (r: bool)
    requires
        well_formed(grid@),
    ensures
        r ==> in_grid(grid@, (x, y)),
        plain_equality::<T>() ==> r == same_region(grid@, (x, y), *region),
{
    if x < grid.len() && y < grid[0].len() {
        assert(grid@[x as int].len() >= width(grid@));
        &grid[x][y] == region
    } else {
        false
    }
}

/// The four places that share an edge with `(x, y)`.
pub fn get_adjacent(x: usize, y: usize) -> (r: [(usize, usize); 4])
    requires
        x < usize::MAX,
        y < usize::MAX,
    ensures
        r@ == adjacent_cells((x, y)),
{
    let r = [(x.wrapping_sub(1), y), (x, y.wrapping_sub(1)), (x + 1, y), (x, y + 1)];
    assert(r@ =~= adjacent_cells((x, y)));
    r
}

/// The four places that share only a corner with `(x, y)`.
pub fn get_diagonal(x: usize, y: usize) -> (r: [(usize, usize); 4])
    requires
        x < usize::MAX,
        y < usize::MAX,
    ensures
        r@ == diagonal_cells((x, y)),
{
    let r = [
        (x.wrapping_sub(1), y.wrapping_sub(1)),
        (x + 1, y.wrapping_sub(1)),
        (x + 1, y + 1),
        (x.wrapping_sub(1), y + 1),
    ];
    assert(r@ =~= diagonal_cells((x, y)));
    r
}

/// Whether the boundary turns at the corner of a cell between the neighbours
/// `first` and `second`, of which it is known whether they carry the label,
/// with `between` the place diagonally across the corner.
fn turns<T: Eq + Hash + Clone>(
    grid: &Vec<Vec<T>>,
    first: bool,
    second: bool,
    between: (usize, usize),
    region: &T,
) -> (r: bool)
    requires
        well_formed(grid@),
    ensures
        plain_equality::<T>() ==> r == ((!first && !second) || (first && second && !same_region(
            grid@,
            between,
            *region,
        ))),
{
    if !first && !second {
        true
    } else if first && second {
        !is_same_region(grid, between.0, between.1, region)
    } else {
        false
    }
}

/// The number of corners of the cell `(x, y)` at which the boundary of the
/// region labelled `region` turns.
fn count_corners<T: Eq + Hash + Clone>(grid: &Vec<Vec<T>>, x: usize, y: usize, region: &T) -> (n:
    u64)
    requires
        well_formed(grid@),
        x < usize::MAX,
        y < usize::MAX,
    ensures
        n <= 4,
        plain_equality::<T>() ==> n == corners(grid@, *region, (x, y)),
{
    let adjacent = get_adjacent(x, y);
    let diagonal = get_diagonal(x, y);
    let s0 = is_same_region(grid, adjacent[0].0, adjacent[0].1, region);
    let s1 = is_same_region(grid, adjacent[1].0, adjacent[1].1, region);
    let s2 = is_same_region(grid, adjacent[2].0, adjacent[2].1, region);
    let s3 = is_same_region(grid, adjacent[3].0, adjacent[3].1, region);
    let mut n: u64 = 0;
    if turns(grid, s0, s1, diagonal[0], region) {
        n += 1;
    }
    if turns(grid, s1, s2, diagonal[1], region) {
        n += 1;
    }
    if turns(grid, s2, s3, diagonal[2], region) {
        n += 1;
    }
    if turns(grid, s3, s0, diagonal[3], region) {
        n += 1;
    }
    n
}

/// The place of the cell `c` in reading order: the number under which it is
/// marked as visited.
pub open spec fn place<T>(g: Seq<Vec<T>>, c: Cell) -> int {
    c.0 * width(g) + c.1
}

/// The cells of the grid whose places the set `vis` holds: the cells visited.
pub open spec fn marks<T>(vis: Set<u64>, g: Seq<Vec<T>>) -> Set<Cell> {
    Set::new(|c: Cell| in_grid(g, c) && vis.contains(place(g, c) as u64))
}

/// Every place of the grid fits in a `u64`.
pub open spec fn countable<T>(g: Seq<Vec<T>>) -> bool {
    g.len() * width(g) <= u64::MAX
}

/// The places of the cells of a grid lie below the number of its cells, and
/// no two cells have one place.
pub proof fn lemma_place<T>(g: Seq<Vec<T>>, a: Cell, b: Cell)
    requires
        in_grid(g, a),
    ensures
        0 <= place(g, a) < g.len() * width(g),
        in_grid(g, b) && place(g, a) == place(g, b) ==> a == b,
{
    let w = width(g);
    let h = g.len() as int;
    let (ax, ay, bx, by) = (a.0 as int, a.1 as int, b.0 as int, b.1 as int);
    assert(0 <= ax * w + ay < h * w) by (nonlinear_arith)
        requires
            0 <= ax < h,
            0 <= ay < w,
    ;
    if in_grid(g, b) && place(g, a) == place(g, b) {
        assert(ax == bx && ay == by) by (nonlinear_arith)
            requires
                ax * w + ay == bx * w + by,
                0 <= ay < w,
                0 <= by < w,
        ;
    }
}

/// The place of the cell `(x, y)`.
fn cell_place<T>(grid: &Vec<Vec<T>>, x: usize, y: usize) -> (k: u64)
    requires
        in_grid(grid@, (x, y)),
        countable(grid@),
    ensures
        k == place(grid@, (x, y)),
{
    proof {
        lemma_place(grid@, (x, y), (x, y));
        assert(x * width(grid@) <= x * width(grid@) + y);
    }
    let columns = grid[0].len();
    (x as u64) * (columns as u64) + (y as u64)
}

/// `s` holds, with a cell, its whole region.
pub open spec fn region_closed<T>(g: Seq<Vec<T>>, s: Set<Cell>) -> bool {
    forall|a: Cell, b: Cell| s.contains(a) && #[trigger] linked(g, a, b) ==> s.contains(b)
}

/// Every neighbour of `c` that carries `t` is marked.
pub open spec fn neighbours_marked<T>(g: Seq<Vec<T>>, t: T, vis: Set<u64>, c: Cell) -> bool {
    forall|i: int|
        0 <= i < 4 && same_region(g, #[trigger] adjacent_cells(c)[i], t) ==> marks(vis, g).contains(
            adjacent_cells(c)[i],
        )
}

/// The state of a flood from `start`: `base` was marked before, `done` has
/// been taken from the queue, and what is marked lies in one of the three.
pub open spec fn flooding<T: Clone + PartialEq>(
    g: Seq<Vec<T>>,
    base: Set<Cell>,
    vis: Set<u64>,
    queue: Seq<Cell>,
    done: Set<Cell>,
    start: Cell,
) -> bool {
    &&& well_formed(g)
    &&& countable(g)
    &&& in_grid(g, start)
    &&& !base.contains(start)
    &&& marks(vis, g).contains(start)
    &&& done.finite()
    &&& queue.no_duplicates()
    &&& forall|c: Cell| base.contains(c) ==> #[trigger] marks(vis, g).contains(c)
    &&& forall|c: Cell| #[trigger]
        marks(vis, g).contains(c) ==> base.contains(c) || done.contains(c) || queue.contains(c)
    &&& forall|c: Cell| #[trigger]
        done.contains(c) ==> marks(vis, g).contains(c) && !base.contains(c) && !queue.contains(c)
    &&& forall|i: int|
        0 <= i < queue.len() ==> marks(vis, g).contains(#[trigger] queue[i]) && !base.contains(
            queue[i],
        )
    &&& plain::<T>() && region_closed(g, base) ==> forall|c: Cell|
        done.contains(c) || queue.contains(c) ==> #[trigger] linked(g, start, c)
}

/// Looks at the place `to` next to the cell `from` that is being measured:
/// where it is a cell of the region and not yet marked, it is marked and
/// queued. Tells whether `to` lies outside the region.
fn visit<T: Eq + Hash + Clone>(
    grid: &Vec<Vec<T>>,
    visited: &mut HashSet<u64>,
    queue: &mut VecDeque<(usize, usize)>,
    from: (usize, usize),
    to: (usize, usize),
    region: &T,
    Ghost(base): Ghost<Set<Cell>>,
    Ghost(done): Ghost<Set<Cell>>,
    Ghost(start): Ghost<Cell>,
    Ghost(i): Ghost<int>,
) -> (outside: bool)
    requires
        flooding(grid@, base, old(visited)@, old(queue)@, done, start),
        done.contains(from),
        0 <= i < 4,
        to == adjacent_cells(from)[i],
        plain::<T>() ==> *region == label(grid@, start),
    ensures
        flooding(grid@, base, final(visited)@, final(queue)@, done, start),
        forall|c: Cell|
            marks(old(visited)@, grid@).contains(c) ==> marks(final(visited)@, grid@).contains(c),
        plain::<T>() ==> outside == !same_region(grid@, to, *region),
        plain::<T>() && !outside ==> marks(final(visited)@, grid@).contains(to),
{
    if !is_same_region(grid, to.0, to.1, region) {
        return true;
    }
    let place_of_to = cell_place(grid, to.0, to.1);
    if !visited.contains(&place_of_to) {
        let ghost before = visited@;
        let ghost waiting = queue@;
        queue.push_back(to);
        visited.insert(place_of_to);
        proof {
            let g = grid@;
            assert(queue@ =~= waiting.push(to));
            assert(!marks(before, g).contains(to));
            assert forall|c: Cell| #[trigger]
                marks(visited@, g).contains(c) <==> marks(before, g).contains(c) || c == to by {
                if in_grid(g, c) {
                    lemma_place(g, c, to);
                }
            }
            assert(!waiting.contains(to)) by {
                if waiting.contains(to) {
                    let k = waiting.index_of(to);
                    assert(marks(before, g).contains(waiting[k]));
                }
            }
            assert(queue@.no_duplicates());
            assert forall|c: Cell| #[trigger]
                marks(visited@, g).contains(c) implies base.contains(c) || done.contains(c)
                || queue@.contains(c) by {
                if c == to {
                    assert(queue@[waiting.len() as int] == to);
                } else if waiting.contains(c) {
                    let k = waiting.index_of(c);
                    assert(queue@[k] == c);
                }
            }
            assert forall|c: Cell| #[trigger]
                done.contains(c) implies marks(visited@, g).contains(c)
                && !base.contains(c) && !queue@.contains(c) by {
                assert(marks(before, g).contains(c));
                if queue@.contains(c) {
                    let k = queue@.index_of(c);
                    if k < waiting.len() {
                        assert(waiting[k] == c);
                    }
                }
            }
            assert forall|k: int| 0 <= k < queue@.len() implies marks(visited@, g).contains(
                #[trigger] queue@[k],
            ) && !base.contains(queue@[k]) by {
                if k < waiting.len() {
                    assert(queue@[k] == waiting[k]);
                    assert(marks(before, g).contains(waiting[k]));
                }
            }
            if plain::<T>() && region_closed(g, base) {
                lemma_adjacent(g, from, to);
                assert(linked(g, start, from));
                lemma_linked(g, start, from, to);
                assert forall|c: Cell|
                    done.contains(c) || queue@.contains(c) implies #[trigger] linked(
                    g,
                    start,
                    c,
                ) by {
                    if !done.contains(c) {
                        let k = queue@.index_of(c);
                        if k < waiting.len() {
                            assert(waiting[k] == c);
                            assert(waiting.contains(c));
                        }
                    }
                }
            }
        }
    }
    false
}

/// When a flood has run dry, what it took from the queue is the region of
/// its start.
proof fn lemma_flood_complete<T: Clone + PartialEq>(
    g: Seq<Vec<T>>,
    base: Set<Cell>,
    vis: Set<u64>,
    done: Set<Cell>,
    start: Cell,
)
    requires
        flooding(g, base, vis, Seq::<Cell>::empty(), done, start),
        plain::<T>(),
        region_closed(g, base),
        forall|c: Cell|
            done.contains(c) ==> #[trigger] neighbours_marked(g, label(g, start), vis, c),
    ensures
        done =~= region_of(g, start),
        marks(vis, g) =~= base + region_of(g, start),
{
    assert forall|c: Cell| linked(g, start, c) implies done.contains(c) by {
        let path = choose|path: Seq<Cell>| #[trigger] walks(g, path, start, c);
        lemma_walk_flooded(g, base, vis, done, start, path, path.len() - 1);
    }
    assert forall|c: Cell| marks(vis, g).contains(c) <==> base.contains(c) || done.contains(c) by {}
}

/// Every cell of a walk from the start of a flood that has run dry was taken
/// from its queue.
proof fn lemma_walk_flooded<T: Clone + PartialEq>(
    g: Seq<Vec<T>>,
    base: Set<Cell>,
    vis: Set<u64>,
    done: Set<Cell>,
    start: Cell,
    path: Seq<Cell>,
    k: int,
)
    requires
        flooding(g, base, vis, Seq::<Cell>::empty(), done, start),
        plain::<T>(),
        region_closed(g, base),
        forall|c: Cell|
            done.contains(c) ==> #[trigger] neighbours_marked(g, label(g, start), vis, c),
        is_walk(g, path),
        path[0] == start,
        0 <= k < path.len(),
    ensures
        done.contains(path[k]),
    decreases k,
{
    if k == 0 {
        assert(marks(vis, g).contains(start));
    } else {
        lemma_walk_flooded(g, base, vis, done, start, path, k - 1);
        let from = path[k - 1];
        let to = path[k];
        assert(hop(path, k - 1));
        assert(same_region(g, to, label(g, start)));
        lemma_adjacent(g, from, to);
        let i = choose|i: int| 0 <= i < 4 && #[trigger] adjacent_cells(from)[i] == to;
        assert(neighbours_marked(g, label(g, start), vis, from));
        assert(marks(vis, g).contains(adjacent_cells(from)[i]));
        assert(linked(g, start, from));
        lemma_linked(g, start, from, to);
        if base.contains(to) {
            lemma_linked(g, start, to, start);
            assert(linked(g, to, start));
        }
    }
}

/// Measures the region of the cell `start`, which is not marked yet, and
/// marks its cells: a flood from `start` over the neighbours with its label.
fn measure_region<T: Eq + Hash + Clone>(
    grid: &Vec<Vec<T>>,
    visited: &mut HashSet<u64>,
    start: (usize, usize),
) -> (props: RegionProperties)
    requires
        well_formed(grid@),
        in_grid(grid@, start),
        !marks(old(visited)@, grid@).contains(start),
        4 * (grid.len() * width(grid@)) <= u64::MAX,
    ensures
        plain::<T>() && region_closed(grid@, marks(old(visited)@, grid@)) ==> marks(
            final(visited)@,
            grid@,
        ) == marks(old(visited)@, grid@) + region_of(grid@, start) && describes(
            props,
            grid@,
            label(grid@, start),
            region_of(grid@, start),
        ),
{
    let ghost g = grid@;
    let ghost base = marks(visited@, g);
    let ghost h = grid.len() as nat;
    let ghost w = width(grid@) as nat;
    let mut props = RegionProperties::new();
    let mut queue: VecDeque<(usize, usize)> = VecDeque::new();
    queue.push_back(start);
    let ghost before = visited@;
    assert(countable(g)) by (nonlinear_arith)
        requires
            4 * (g.len() * width(g)) <= u64::MAX,
            g.len() * width(g) >= 0,
    ;
    visited.insert(cell_place(grid, start.0, start.1));
    proof {
        assert forall|c: Cell| #[trigger]
            marks(visited@, g).contains(c) <==> marks(before, g).contains(c) || c == start by {
            if in_grid(g, c) {
                lemma_place(g, c, start);
            }
        }
    }
    assert(grid@[start.0 as int].len() >= width(grid@));
    let region = grid[start.0][start.1].clone();
    let ghost mut done = Set::<Cell>::empty();
    proof {
        assert(cloned(grid@[start.0 as int]@[start.1 as int], region));
        lemma_cells_count(h, w);
        lemma_total_insert(done, borders_of(g, region), start);
        lemma_total_insert(done, corners_of(g, region), start);
        assert(queue@ =~= seq![start]);
        assert(queue@[0] == start);
        if plain::<T>() {
            lemma_linked(g, start, start, start);
        }
        assert forall|c: Cell| #[trigger]
            marks(visited@, g).contains(c) implies base.contains(c) || done.contains(c)
            || queue@.contains(c) by {
            if c == start {
                assert(queue@[0] == c);
            }
        }
    }
    while queue.len() > 0
        invariant
            flooding(g, base, visited@, queue@, done, start),
            g == grid@,
            h == grid.len(),
            w == width(grid@),
            cells(h, w).finite(),
            cells(h, w).len() == h * w,
            4 * (h * w) <= u64::MAX,
            props.area == done.len(),
            props.perimeter <= 4 * done.len(),
            props.sides <= 4 * done.len(),
            plain::<T>() ==> region == label(g, start),
            plain::<T>() ==> props.perimeter == total(done, borders_of(g, region)),
            plain::<T>() ==> props.sides == total(done, corners_of(g, region)),
            plain::<T>() ==> forall|c: Cell|
                done.contains(c) ==> #[trigger] neighbours_marked(g, region, visited@, c),
        decreases h * w - done.len(),
    {
        let ghost waiting = queue@;
        let ghost was = done;
        let ghost marked = visited@;
        let (x, y) = queue.pop_front().unwrap();
        let cell = (x, y);
        proof {
            done = was.insert(cell);
            assert(queue@ =~= waiting.skip(1));
            assert(waiting[0] == cell);
            assert(marks(visited@, g).contains(waiting[0]));
            assert(!queue@.contains(cell)) by {
                if queue@.contains(cell) {
                    let k = queue@.index_of(cell);
                    assert(waiting[k + 1] == cell);
                }
            }
            assert(!was.contains(cell)) by {
                assert(waiting.contains(cell));
            }
            assert forall|c: Cell| #[trigger]
                marks(visited@, g).contains(c) implies base.contains(c) || done.contains(c)
                || queue@.contains(c) by {
                if waiting.contains(c) && c != cell {
                    let k = waiting.index_of(c);
                    assert(queue@[k - 1] == c);
                }
            }
            assert forall|c: Cell| #[trigger]
                done.contains(c) implies marks(visited@, g).contains(c)
                && !base.contains(c) && !queue@.contains(c) by {
                if queue@.contains(c) {
                    let k = queue@.index_of(c);
                    assert(waiting[k + 1] == c);
                    assert(waiting.contains(c));
                }
            }
            assert forall|k: int| 0 <= k < queue@.len() implies marks(visited@, g).contains(
                #[trigger] queue@[k],
            ) && !base.contains(queue@[k]) by {
                assert(queue@[k] == waiting[k + 1]);
            }
            if plain::<T>() && region_closed(g, base) {
                assert forall|c: Cell|
                    done.contains(c) || queue@.contains(c) implies #[trigger] linked(
                    g,
                    start,
                    c,
                ) by {
                    if c == cell {
                        assert(waiting.contains(c));
                    } else if !was.contains(c) {
                        let k = queue@.index_of(c);
                        assert(waiting[k + 1] == c);
                        assert(waiting.contains(c));
                    }
                }
            }
            assert(flooding(g, base, visited@, queue@, done, start));
            assert forall|c: Cell| done.contains(c) implies cells(h, w).contains(c) by {
                assert(marks(visited@, g).contains(c));
            }
            lemma_len_subset(done, cells(h, w));
            lemma_total_insert(was, borders_of(g, region), cell);
            lemma_total_insert(was, corners_of(g, region), cell);
        }
        props.area += 1;
        let found_sides = count_corners(grid, x, y, &region);
        props.sides += found_sides;
        let adjacent = get_adjacent(x, y);
        let mut found_perimeter: u64 = 0;
        let o0 = visit(
            grid,
            visited,
            &mut queue,
            cell,
            adjacent[0],
            &region,
            Ghost(base),
            Ghost(done),
            Ghost(start),
            Ghost(0),
        );
        if o0 {
            found_perimeter += 1;
        }
        let o1 = visit(
            grid,
            visited,
            &mut queue,
            cell,
            adjacent[1],
            &region,
            Ghost(base),
            Ghost(done),
            Ghost(start),
            Ghost(1),
        );
        if o1 {
            found_perimeter += 1;
        }
        let o2 = visit(
            grid,
            visited,
            &mut queue,
            cell,
            adjacent[2],
            &region,
            Ghost(base),
            Ghost(done),
            Ghost(start),
            Ghost(2),
        );
        if o2 {
            found_perimeter += 1;
        }
        let o3 = visit(
            grid,
            visited,
            &mut queue,
            cell,
            adjacent[3],
            &region,
            Ghost(base),
            Ghost(done),
            Ghost(start),
            Ghost(3),
        );
        if o3 {
            found_perimeter += 1;
        }
        props.perimeter += found_perimeter;
        proof {
            if plain::<T>() {
                assert(found_perimeter == borders(g, region, cell));
                assert(found_sides == corners(g, region, cell));
                assert forall|c: Cell| done.contains(c) implies #[trigger] neighbours_marked(
                    g,
                    region,
                    visited@,
                    c,
                ) by {
                    if c != cell {
                        assert(neighbours_marked(g, region, marked, c));
                    }
                }
            }
        }
    }
    proof {
        assert(queue@ =~= Seq::<Cell>::empty());
        if plain::<T>() && region_closed(g, base) {
            lemma_flood_complete(g, base, visited@, done, start);
        }
    }
    props
}

/// Of the regions with its label whose first cell is read before `pos`,
/// that of `r` is read last.
pub open spec fn is_last_root_before<T>(g: Seq<Vec<T>>, r: Cell, pos: Cell) -> bool {
    &&& is_root(g, r)
    &&& reads_before(r, pos)
    &&& forall|s: Cell| #[trigger]
        is_root(g, s) && reads_before(s, pos) && label(g, s) == label(g, r) ==> !reads_before(r, s)
}

/// The state of the scan when the cells before `pos` have been read: the
/// marks hold whole regions, those of the cells read; the map has an entry for
/// each label marked, and under it the measures of the last region with it.
pub open spec fn scanned<T>(
    g: Seq<Vec<T>>,
    vis: Set<u64>,
    m: Map<T, RegionProperties>,
    pos: Cell,
) -> bool {
    &&& region_closed(g, marks(vis, g))
    &&& forall|c: Cell|
        in_grid(g, c) && reads_before(c, pos) ==> #[trigger] marks(vis, g).contains(c)
    &&& forall|c: Cell| #[trigger]
        marks(vis, g).contains(c) ==> m.contains_key(label(g, c)) && exists|r: Cell|
            in_grid(g, r) && reads_before(r, pos) && #[trigger] linked(g, r, c)
    &&& forall|t: T| #[trigger]
        m.contains_key(t) ==> exists|c: Cell| in_grid(g, c) && #[trigger] label(g, c) == t
    &&& forall|r: Cell| #[trigger]
        is_last_root_before(g, r, pos) ==> m.contains_key(label(g, r)) && describes(
            m[label(g, r)],
            g,
            label(g, r),
            region_of(g, r),
        )
}

/// The scan may pass over a cell that is marked.
proof fn lemma_scan_skip<T>(
    g: Seq<Vec<T>>,
    vis: Set<u64>,
    m: Map<T, RegionProperties>,
    pos: Cell,
    next: Cell,
)
    requires
        scanned(g, vis, m, pos),
        in_grid(g, pos),
        marks(vis, g).contains(pos),
        forall|c: Cell|
            in_grid(g, c) ==> (reads_before(c, next) <==> reads_before(c, pos) || c == pos),
    ensures
        scanned(g, vis, m, next),
{
    let r0 = choose|r: Cell| in_grid(g, r) && reads_before(r, pos) && #[trigger] linked(g, r, pos);
    lemma_linked(g, r0, pos, pos);
    assert(linked(g, pos, r0));
    assert(!is_root(g, pos));
    assert forall|c: Cell| #[trigger] marks(vis, g).contains(c) implies m.contains_key(label(g, c))
        && exists|r: Cell| in_grid(g, r) && reads_before(r, next) && #[trigger] linked(g, r, c) by {
        let r = choose|r: Cell| in_grid(g, r) && reads_before(r, pos) && #[trigger] linked(g, r, c);
        assert(in_grid(g, r) && reads_before(r, next) && linked(g, r, c));
    }
    assert forall|r: Cell| #[trigger] is_last_root_before(g, r, next) implies m.contains_key(
        label(g, r),
    ) && describes(m[label(g, r)], g, label(g, r), region_of(g, r)) by {
        assert(is_last_root_before(g, r, pos));
    }
}

/// Two places before which the same cells are read are the same to the scan.
proof fn lemma_scan_shift<T>(
    g: Seq<Vec<T>>,
    vis: Set<u64>,
    m: Map<T, RegionProperties>,
    pos: Cell,
    next: Cell,
)
    requires
        scanned(g, vis, m, pos),
        forall|c: Cell| in_grid(g, c) ==> (reads_before(c, next) <==> reads_before(c, pos)),
    ensures
        scanned(g, vis, m, next),
{
    assert forall|c: Cell| #[trigger] marks(vis, g).contains(c) implies m.contains_key(label(g, c))
        && exists|r: Cell| in_grid(g, r) && reads_before(r, next) && #[trigger] linked(g, r, c) by {
        let r = choose|r: Cell| in_grid(g, r) && reads_before(r, pos) && #[trigger] linked(g, r, c);
        assert(in_grid(g, r) && reads_before(r, next) && linked(g, r, c));
    }
    assert forall|r: Cell| #[trigger] is_last_root_before(g, r, next) implies m.contains_key(
        label(g, r),
    ) && describes(m[label(g, r)], g, label(g, r), region_of(g, r)) by {
        assert(is_last_root_before(g, r, pos));
    }
}

/// The scan goes on past a cell that was not marked once its region has been
/// marked and its measures entered under its label.
proof fn lemma_scan_found<T>(
    g: Seq<Vec<T>>,
    vis: Set<u64>,
    now: Set<u64>,
    m: Map<T, RegionProperties>,
    props: RegionProperties,
    pos: Cell,
    next: Cell,
)
    requires
        scanned(g, vis, m, pos),
        in_grid(g, pos),
        !marks(vis, g).contains(pos),
        marks(now, g) == marks(vis, g) + region_of(g, pos),
        describes(props, g, label(g, pos), region_of(g, pos)),
        forall|c: Cell|
            in_grid(g, c) ==> (reads_before(c, next) <==> reads_before(c, pos) || c == pos),
    ensures
        scanned(g, now, m.insert(label(g, pos), props), next),
{
    let after = m.insert(label(g, pos), props);
    lemma_linked(g, pos, pos, pos);
    assert(is_root(g, pos)) by {
        assert forall|c: Cell| #[trigger] linked(g, pos, c) implies !reads_before(c, pos) by {
            lemma_linked(g, pos, c, pos);
            if reads_before(c, pos) {
                assert(marks(vis, g).contains(c));
                assert(linked(g, c, pos));
            }
        }
    }
    assert forall|a: Cell, b: Cell|
        marks(now, g).contains(a) && #[trigger] linked(g, a, b) implies marks(now, g).contains(
        b,
    ) by {
        if marks(vis, g).contains(a) {
            assert(marks(vis, g).contains(b));
        } else {
            lemma_linked(g, pos, a, b);
        }
    }
    assert forall|c: Cell| #[trigger]
        marks(now, g).contains(c) implies after.contains_key(label(g, c))
        && exists|r: Cell| in_grid(g, r) && reads_before(r, next) && #[trigger] linked(g, r, c) by {
        if marks(vis, g).contains(c) {
            let r = choose|r: Cell|
                in_grid(g, r) && reads_before(r, pos) && #[trigger] linked(g, r, c);
            assert(in_grid(g, r) && reads_before(r, next) && linked(g, r, c));
        } else {
            lemma_linked(g, pos, c, c);
            assert(in_grid(g, pos) && reads_before(pos, next) && linked(g, pos, c));
        }
    }
    assert forall|t: T| #[trigger] after.contains_key(t) implies exists|c: Cell|
        in_grid(g, c) && #[trigger] label(g, c) == t by {
        if t == label(g, pos) {
            assert(in_grid(g, pos) && label(g, pos) == t);
        }
    }
    assert forall|r: Cell| #[trigger] is_last_root_before(g, r, next) implies after.contains_key(
        label(g, r),
    ) && describes(after[label(g, r)], g, label(g, r), region_of(g, r)) by {
        if r != pos {
            assert(reads_before(r, pos));
            if label(g, r) == label(g, pos) {
                assert(is_root(g, pos) && reads_before(pos, next));
                assert(false);
            }
            assert(is_last_root_before(g, r, pos));
        }
    }
}

/// The area, the perimeter and the number of sides of the regions of `grid`,
/// by label. The grid is read row by row; each cell not yet marked starts a
/// flood that measures and marks its region, and the measures are entered
/// under the label, in place of any entered before. The width is the length
/// of the first row: no row may be shorter, and four times the number of
/// cells must fit in a `u64`.
pub fn find_properties_of_subregions<T: Eq + Hash + Clone>(grid: Vec<Vec<T>>) -> (properties:
    HashMap<T, RegionProperties>)
    requires
        well_formed(grid@),
        4 * (grid.len() * width(grid@)) <= u64::MAX,
    ensures
        plain::<T>() ==> reports(grid@, properties@),
{
    let mut properties: HashMap<T, RegionProperties> = HashMap::new();
    let mut visited: HashSet<u64> = HashSet::new();
    let height = grid.len();
    let columns = if height == 0 {
        0
    } else {
        grid[0].len()
    };
    let ghost g = grid@;
    proof {
        assert(marks(visited@, g) =~= Set::<Cell>::empty());
    }
    let mut x: usize = 0;
    while x < height
        invariant
            x <= height,
            g == grid@,
            height == grid.len(),
            columns == width(g),
            well_formed(g),
            4 * (grid.len() * width(grid@)) <= u64::MAX,
            plain::<T>() ==> scanned(g, visited@, properties@, (x, 0usize)),
        decreases height - x,
    {
        let mut y: usize = 0;
        while y < columns
            invariant
                x < height,
                y <= columns,
                g == grid@,
                height == grid.len(),
                columns == width(g),
                well_formed(g),
                4 * (grid.len() * width(grid@)) <= u64::MAX,
                    plain::<T>() ==> scanned(g, visited@, properties@, (x, y)),
            decreases columns - y,
        {
            let start = (x, y);
            assert(countable(g)) by (nonlinear_arith)
                requires
                    4 * (g.len() * width(g)) <= u64::MAX,
                    g.len() * width(g) >= 0,
            ;
            let place_of_start = cell_place(&grid, x, y);
            if visited.contains(&place_of_start) {
                proof {
                    if plain::<T>() {
                        lemma_scan_skip(g, visited@, properties@, start, (x, (y + 1) as usize));
                    }
                }
            } else {
                let ghost before = visited@;
                let region_properties = measure_region(&grid, &mut visited, start);
                assert(grid@[x as int].len() >= width(grid@));
                let region = grid[x][y].clone();
                proof {
                    assert(cloned(grid@[x as int]@[y as int], region));
                    if plain::<T>() {
                        lemma_scan_found(
                            g,
                            before,
                            visited@,
                            properties@,
                            region_properties,
                            start,
                            (x, (y + 1) as usize),
                        );
                    }
                }
                properties.insert(region, region_properties);
            }
            y += 1;
        }
        proof {
            if plain::<T>() {
                lemma_scan_shift(g, visited@, properties@, (x, y), ((x + 1) as usize, 0usize));
            }
        }
        x += 1;
    }
    proof {
        if plain::<T>() {
            let m = properties@;
            let end = (x, 0usize);
            assert forall|t: T| #[trigger]
                m.contains_key(t) <==> exists|c: Cell|
                    in_grid(g, c) && #[trigger] label(g, c) == t by {
                if exists|c: Cell| in_grid(g, c) && #[trigger] label(g, c) == t {
                    let c = choose|c: Cell| in_grid(g, c) && #[trigger] label(g, c) == t;
                    assert(reads_before(c, end));
                    assert(marks(visited@, g).contains(c));
                }
            }
            assert forall|r: Cell| #[trigger] is_last_root(g, r) implies m.contains_key(label(g, r))
                && describes(m[label(g, r)], g, label(g, r), region_of(g, r)) by {
                assert(is_last_root_before(g, r, end));
            }
        }
    }
    properties
}

} // verus!
