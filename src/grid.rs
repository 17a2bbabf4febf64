//! The grid model: a rectangular matrix of cell markers, where the marker `1`
//! blocks a cell and every other value leaves it open.
use vstd::prelude::*;

verus! {

/// A coordinate `(x, y)`: `x` indexes the outer rows, `y` the inner ones.
pub type Cell = (usize, usize);

/// The marker of a blocked cell.
pub const BLOCKED: usize = 1;

/// The map is non-empty, its first row is non-empty, and every row has the
/// length of the first.
pub open spec fn well_formed(map: Seq<Vec<usize>>) -> bool {
    &&& map.len() > 0
    &&& map[0]@.len() > 0
    &&& forall|i: int| 0 <= i < map.len() ==> (#[trigger] map[i]@).len() == map[0]@.len()
}

/// Number of cells along axis 0.
pub open spec fn width(map: Seq<Vec<usize>>) -> nat {
    map.len()
}

/// Number of cells along axis 1.
pub open spec fn height(map: Seq<Vec<usize>>) -> nat {
    map[0]@.len()
}

pub open spec fn in_bounds(map: Seq<Vec<usize>>, c: Cell) -> bool {
    c.0 < width(map) && c.1 < height(map)
}

/// The cell lies in the grid and is not blocked.
pub open spec fn is_open(map: Seq<Vec<usize>>, c: Cell) -> bool {
    in_bounds(map, c) && map[c.0 as int]@[c.1 as int] != BLOCKED
}

/// Two distinct cells that touch by a side or by a corner.
pub open spec fn adjacent(a: Cell, b: Cell) -> bool {
    &&& a != b
    &&& a.0 <= b.0 + 1
    &&& b.0 <= a.0 + 1
    &&& a.1 <= b.1 + 1
    &&& b.1 <= a.1 + 1
}

/// Every cell of `p` is open, and each one touches the next.
pub open spec fn is_walk(map: Seq<Vec<usize>>, p: Seq<Cell>) -> bool {
    &&& forall|i: int| 0 <= i < p.len() ==> is_open(map, #[trigger] p[i])
    &&& forall|i: int| 0 <= i < p.len() - 1 ==> adjacent(#[trigger] p[i], p[i + 1])
}

/// `p` is a walk over open cells from `s` to `e`.
pub open spec fn connects(map: Seq<Vec<usize>>, p: Seq<Cell>, s: Cell, e: Cell) -> bool {
    &&& p.len() > 0
    &&& p[0] == s
    &&& p.last() == e
    &&& is_walk(map, p)
}

/// Some walk over open cells leads from `s` to `e`.
pub open spec fn reachable(map: Seq<Vec<usize>>, s: Cell, e: Cell) -> bool {
    exists|p: Seq<Cell>| #[trigger] connects(map, p, s, e)
}

/// One step from `a` toward `b` along one axis.
pub open spec fn step_toward(a: usize, b: usize) -> usize {
    if a < b {
        (a + 1) as usize
    } else if a > b {
        (a - 1) as usize
    } else {
        a
    }
}

pub open spec fn gap(a: usize, b: usize) -> nat {
    if a >= b {
        (a - b) as nat
    } else {
        (b - a) as nat
    }
}

/// In a grid without blocked cells, every cell can be reached from every
/// other one.
pub proof fn lemma_open_grid_reachable(map: Seq<Vec<usize>>, s: Cell, e: Cell)
    requires
        well_formed(map),
        forall|c: Cell| in_bounds(map, c) ==> #[trigger] is_open(map, c),
        in_bounds(map, s),
        in_bounds(map, e),
    ensures
        reachable(map, s, e),
    decreases gap(s.0, e.0) + gap(s.1, e.1),
{
    if s == e {
        let p = seq![s];
        assert(is_open(map, s));
        assert(connects(map, p, s, e));
    } else {
        let s2 = (step_toward(s.0, e.0), step_toward(s.1, e.1));
        assert(is_open(map, s));
        assert(in_bounds(map, s2));
        lemma_open_grid_reachable(map, s2, e);
        let p2 = choose|p2: Seq<Cell>| connects(map, p2, s2, e);
        let p = seq![s] + p2;
        assert(p[0] == s);
        assert forall|i: int| 1 <= i < p.len() implies #[trigger] p[i] == p2[i - 1] by {
        }
        assert forall|i: int| 0 <= i < p.len() implies is_open(map, #[trigger] p[i]) by {
            if i > 0 {
                assert(p[i] == p2[i - 1]);
            }
        }
        assert forall|i: int| 0 <= i < p.len() - 1 implies adjacent(#[trigger] p[i], p[i + 1]) by {
            if i > 0 {
                assert(p[i] == p2[i - 1]);
                assert(p[i + 1] == p2[i]);
                assert(adjacent(p2[i - 1], p2[i]));
            } else {
                assert(p[1] == p2[0]);
            }
        }
        assert(p.last() == p2.last());
        assert(connects(map, p, s, e));
    }
}

proof fn lemma_walk_stays_before_wall(map: Seq<Vec<usize>>, k: usize, p: Seq<Cell>, i: int)
    requires
        well_formed(map),
        k < width(map),
        forall|y: usize| y < height(map) ==> #[trigger] map[k as int]@[y as int] == BLOCKED,
        is_walk(map, p),
        0 <= i < p.len(),
        p.len() > 0,
        p[0].0 < k,
    ensures
        p[i].0 < k,
    decreases i,
{
    if i > 0 {
        lemma_walk_stays_before_wall(map, k, p, i - 1);
        assert(adjacent(p[i - 1], p[i]));
        assert(is_open(map, p[i]));
        if p[i].0 == k {
            assert(map[k as int]@[p[i].1 as int] == BLOCKED);
        }
    }
}

/// A line of blocked cells that spans the grid at `x == k` separates the
/// cells before it from the cells after it: no walk over open cells leads
/// from one side to the other.
pub proof fn lemma_wall_separates(map: Seq<Vec<usize>>, k: usize, s: Cell, e: Cell)
    requires
        well_formed(map),
        k < width(map),
        forall|y: usize| y < height(map) ==> #[trigger] map[k as int]@[y as int] == BLOCKED,
        s.0 < k,
        k < e.0,
    ensures
        !reachable(map, s, e),
{
    if reachable(map, s, e) {
        let p = choose|p: Seq<Cell>| connects(map, p, s, e);
        lemma_walk_stays_before_wall(map, k, p, p.len() - 1);
    }
}

/// Position of a cell in a row-major table with `h` cells per row.
pub open spec fn index_of(h: nat, c: Cell) -> int {
    c.0 * h + c.1
}

pub proof fn lemma_index_in_range(w: nat, h: nat, c: Cell)
    requires
        c.0 < w,
        c.1 < h,
    ensures
        0 <= index_of(h, c) < w * h,
{
    assert(c.0 * h + c.1 < w * h) by (nonlinear_arith)
        requires
            c.0 < w,
            c.1 < h,
    ;
}

pub proof fn lemma_index_injective(h: nat, a: Cell, b: Cell)
    requires
        a.1 < h,
        b.1 < h,
        index_of(h, a) == index_of(h, b),
    ensures
        a == b,
{
    if a.0 < b.0 {
        assert(a.0 * h + a.1 < b.0 * h + b.1) by (nonlinear_arith)
            requires
                a.0 < b.0,
                a.1 < h,
        ;
    } else if b.0 < a.0 {
        assert(b.0 * h + b.1 < a.0 * h + a.1) by (nonlinear_arith)
            requires
                b.0 < a.0,
                b.1 < h,
        ;
    }
}

pub proof fn lemma_index_injective_all(h: nat)
    ensures
        forall|a: Cell, b: Cell|
            a.1 < h && b.1 < h && #[trigger] index_of(h, a) == #[trigger] index_of(h, b) ==> a == b,
{
    assert forall|a: Cell, b: Cell|
        a.1 < h && b.1 < h && #[trigger] index_of(h, a) == #[trigger] index_of(h, b) implies a == b by {
        lemma_index_injective(h, a, b);
    }
}

/// Whether the cell is open, for a cell known to lie in the grid.
pub fn cell_is_open(map: &Vec<Vec<usize>>, c: Cell) -> (r: bool)
    requires
        well_formed(map@),
        in_bounds(map@, c),
    ensures
        r == is_open(map@, c),
{
    map[c.0][c.1] != BLOCKED
}

/// The row-major index of an in-bounds cell.
pub fn flat_index(w: usize, h: usize, c: Cell) -> (r: usize)
    requires
        c.0 < w,
        c.1 < h,
        w * h <= usize::MAX,
    ensures
        r == index_of(h as nat, c),
        r < w * h,
{
    proof {
        lemma_index_in_range(w as nat, h as nat, c);
    }
    c.0 * h + c.1
}

} // verus!
