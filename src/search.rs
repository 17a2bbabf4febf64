//! The best-first search over the grid.
//!
//! Costs are exact integers in tenths of a step: a move across a side costs
//! 10, a move across a corner 14, and the estimate of what remains is ten
//! times the Manhattan distance to the goal. A cell's cost and predecessor are
//! fixed when it is first found and never revised, so the route found is not
//! always a shortest one; the Manhattan estimate is not admissible once corner
//! moves are allowed, which is kept as it is. The frontier stays in ascending order of combined
//! cost; among equal costs the cell found earlier comes first, which makes the
//! result a function of the input.
use vstd::prelude::*;
use crate::grid::{Cell, well_formed, width, height, in_bounds, is_open, adjacent, connects, reachable, is_walk, index_of, cell_is_open, flat_index, lemma_index_in_range, lemma_index_injective, lemma_index_injective_all, lemma_open_grid_reachable};
use crate::neighbors::{get_neighbors, get_diagonal_neighbors, side_adjacent, corner_adjacent};
use crate::frontier::{frontier_contains, insert_by_cost, all_indexed, lemma_insert_contains, lemma_remove_first};
use crate::path::{find_path, is_pair_list, route_cells, is_trace, ranked};

verus! {

/// Cost of a move across a side, in tenths of a step.
pub const SIDE_COST: u128 = 10;

/// Cost of a move across a corner, in tenths of a step.
pub const CORNER_COST: u128 = 14;

pub open spec fn abs_diff(a: usize, b: usize) -> int {
    if a >= b {
        a - b
    } else {
        b - a
    }
}

/// The number of side moves between two cells, ignoring blocked cells.
pub fn manhattan_distance(point1: Cell, point2: Cell) -> (r: u128)
    ensures
        r == abs_diff(point1.0, point2.0) + abs_diff(point1.1, point2.1),
{
    let dx: u128 = if point1.0 >= point2.0 {
        (point1.0 - point2.0) as u128
    } else {
        (point2.0 - point1.0) as u128
    };
    let dy: u128 = if point1.1 >= point2.1 {
        (point1.1 - point2.1) as u128
    } else {
        (point2.1 - point1.1) as u128
    };
    dx + dy
}

/// The tables of one search, one entry per cell in row-major order.
struct Search {
    frontier: Vec<Cell>,
    closed: Vec<bool>,
    came_from: Vec<Option<Cell>>,
    g_cost: Vec<u128>,
    f_cost: Vec<u128>,
}

impl Search {
    spec fn closed_at(self, h: nat, c: Cell) -> bool {
        self.closed@[index_of(h, c)]
    }

    spec fn discovered(self, h: nat, c: Cell) -> bool {
        self.closed_at(h, c) || self.frontier@.contains(c)
    }

    spec fn pred_at(self, h: nat, c: Cell) -> Option<Cell> {
        self.came_from@[index_of(h, c)]
    }

    spec fn g_at(self, h: nat, c: Cell) -> int {
        self.g_cost@[index_of(h, c)] as int
    }

    /// What holds between steps of the search. `done` holds the indices of
    /// the expanded cells; `pending` is a cell being expanded, whose
    /// neighbours may not all have been found yet.
    spec fn inv(self, map: Seq<Vec<usize>>, start: Cell, end: Cell, done: Set<int>, pending: Option<Cell>) -> bool {
        let w = width(map);
        let h = height(map);
        let n = w * h;
        &&& self.closed@.len() == n
        &&& self.came_from@.len() == n
        &&& self.g_cost@.len() == n
        &&& self.f_cost@.len() == n
        &&& self.frontier@.no_duplicates()
        &&& forall|c: Cell| #[trigger] self.frontier@.contains(c) ==> is_open(map, c) && !self.closed_at(h, c)
        &&& forall|c: Cell| in_bounds(map, c) && #[trigger] self.closed_at(h, c) ==> is_open(map, c)
        &&& forall|c: Cell| in_bounds(map, c) && (#[trigger] self.pred_at(h, c)) is Some ==> {
                let p = self.pred_at(h, c).unwrap();
                in_bounds(map, p) && self.closed_at(h, p) && adjacent(p, c) && self.g_at(h, p) < self.g_at(h, c)
            }
        &&& forall|c: Cell| in_bounds(map, c) && #[trigger] self.discovered(h, c) && c != start ==> self.pred_at(h, c) is Some
        &&& in_bounds(map, start)
        &&& self.pred_at(h, start) is None
        &&& self.discovered(h, start)
        &&& forall|c: Cell| in_bounds(map, c) && #[trigger] self.discovered(h, c) ==> self.g_at(h, c) <= 14 * done.len()
        &&& done.finite()
        &&& forall|i: int| 0 <= i < n ==> (self.closed@[i] <==> #[trigger] done.contains(i))
        &&& forall|i: int| #[trigger] done.contains(i) ==> 0 <= i < n
        &&& forall|c: Cell, q: Cell|
                in_bounds(map, c) && self.closed_at(h, c) && pending != Some(c) && is_open(map, q) && #[trigger] adjacent(c, q)
                ==> self.discovered(h, q)
        &&& !self.closed_at(h, end)
        &&& pending matches Some(cur) ==> in_bounds(map, cur) && self.closed_at(h, cur) && self.g_at(h, cur) + 14 <= 14 * done.len()
    }
}


impl Search {
    proof fn lemma_frontier_indexed(self, map: Seq<Vec<usize>>, start: Cell, end: Cell, done: Set<int>, pending: Option<Cell>)
        requires
            self.inv(map, start, end, done, pending),
        ensures
            all_indexed(self.frontier@, height(map), self.f_cost@.len()),
            forall|i: int| 0 <= i < self.frontier@.len() ==> in_bounds(map, #[trigger] self.frontier@[i]),
    {
        assert forall|i: int| 0 <= i < self.frontier@.len() implies in_bounds(map, #[trigger] self.frontier@[i])
            && 0 <= index_of(height(map), self.frontier@[i]) < self.f_cost@.len() by {
            assert(self.frontier@.contains(self.frontier@[i]));
            lemma_index_in_range(width(map), height(map), self.frontier@[i]);
        }
    }

    /// Finds each cell of `candidates` that is open, not in the frontier and
    /// not expanded: it gets `current` as predecessor, the cost of `current`
    /// plus `step`, and its place in the frontier.
    fn expand(&mut self, map: &Vec<Vec<usize>>, w: usize, h: usize, current: Cell, end: Cell, candidates: &Vec<Cell>, step: u128, Ghost(start): Ghost<Cell>, Ghost(done): Ghost<Set<int>>)
        requires
            old(self).inv(map@, start, end, done, Some(current)),
            well_formed(map@),
            w == width(map@),
            h == height(map@),
            w * h <= usize::MAX,
            done.len() <= w * h,
            0 < step <= CORNER_COST,
            in_bounds(map@, end),
            forall|k: int| 0 <= k < candidates@.len() ==> in_bounds(map@, #[trigger] candidates@[k]) && adjacent(current, candidates@[k]),
        ensures
            final(self).inv(map@, start, end, done, Some(current)),
            final(self).closed@ == old(self).closed@,
            forall|c: Cell| in_bounds(map@, c) && #[trigger] old(self).discovered(h as nat, c) ==> final(self).discovered(h as nat, c),
            forall|k: int| 0 <= k < candidates@.len() && is_open(map@, #[trigger] candidates@[k]) ==> final(self).discovered(h as nat, candidates@[k]),
    {
        let ghost s0 = *self;
        proof {
            lemma_index_in_range(w as nat, h as nat, current);
        }
        let ci = flat_index(w, h, current);
        let mut k: usize = 0;
        while k < candidates.len()
            invariant
                self.inv(map@, start, end, done, Some(current)),
                well_formed(map@),
                w == width(map@),
                h == height(map@),
                w * h <= usize::MAX,
                done.len() <= w * h,
                0 < step <= CORNER_COST,
                in_bounds(map@, end),
                in_bounds(map@, current),
                ci == index_of(h as nat, current),
                ci < w * h,
                forall|j: int| 0 <= j < candidates@.len() ==> in_bounds(map@, #[trigger] candidates@[j]) && adjacent(current, candidates@[j]),
                0 <= k <= candidates@.len(),
                self.closed@ == s0.closed@,
                forall|c: Cell| in_bounds(map@, c) && #[trigger] s0.discovered(h as nat, c) ==> self.discovered(h as nat, c),
                forall|j: int| 0 <= j < k && is_open(map@, #[trigger] candidates@[j]) ==> self.discovered(h as nat, candidates@[j]),
            decreases candidates@.len() - k,
        {
            let q = candidates[k];
            assert(in_bounds(map@, q));
            let qi = flat_index(w, h, q);
            if !frontier_contains(&self.frontier, q) && cell_is_open(map, q) && !self.closed[qi] {
                let ghost s1 = *self;
                proof {
                    self.lemma_frontier_indexed(map@, start, end, done, Some(current));
                }
                let g = self.g_cost[ci] + step;
                let f = g + SIDE_COST * manhattan_distance(q, end);
                self.g_cost.set(qi, g);
                self.f_cost.set(qi, f);
                self.came_from.set(qi, Some(current));
                let pos = insert_by_cost(&mut self.frontier, &self.f_cost, h, q, f);
                proof {
                    lemma_insert_contains(s1.frontier@, pos as int, q);
                    lemma_index_injective_all(h as nat);
                    assert(self.frontier@.contains(q));
                    let hn = h as nat;
                    assert forall|c: Cell| in_bounds(map@, c) && #[trigger] s1.discovered(hn, c) implies self.discovered(hn, c) by {
                        if s1.frontier@.contains(c) {
                            assert(self.frontier@.contains(c));
                        }
                    }
                    assert forall|c: Cell| in_bounds(map@, c) && c != q implies
                        #[trigger] self.pred_at(hn, c) == s1.pred_at(hn, c) by {
                        if index_of(hn, c) == index_of(hn, q) {
                            lemma_index_injective(hn, c, q);
                        }
                        lemma_index_in_range(w as nat, hn, c);
                    }
                    assert forall|c: Cell| in_bounds(map@, c) && c != q implies
                        #[trigger] self.g_at(hn, c) == s1.g_at(hn, c) by {
                        if index_of(hn, c) == index_of(hn, q) {
                            lemma_index_injective(hn, c, q);
                        }
                        lemma_index_in_range(w as nat, hn, c);
                    }
                    assert(self.g_at(hn, q) == s1.g_at(hn, current) + step);
                    assert forall|c: Cell| in_bounds(map@, c) && (#[trigger] self.pred_at(hn, c)) is Some implies {
                        let p = self.pred_at(hn, c).unwrap();
                        in_bounds(map@, p) && self.closed_at(hn, p) && adjacent(p, c) && self.g_at(hn, p) < self.g_at(hn, c)
                    } by {
                        if c != q {
                            assert(s1.pred_at(hn, c) is Some);
                            let p = s1.pred_at(hn, c).unwrap();
                            assert(s1.closed_at(hn, p));
                            assert(p != q);
                            assert(self.g_at(hn, p) == s1.g_at(hn, p));
                            assert(self.g_at(hn, c) == s1.g_at(hn, c));
                        } else {
                            assert(adjacent(current, q));
                        }
                    }
                    assert forall|c: Cell| in_bounds(map@, c) && #[trigger] self.discovered(hn, c) && c != start implies self.pred_at(hn, c) is Some by {
                        if c != q {
                            assert(s1.discovered(hn, c));
                        }
                    }
                    assert(s1.discovered(hn, start));
                    assert(start != q);
                    assert forall|c: Cell| in_bounds(map@, c) && #[trigger] self.discovered(hn, c) implies self.g_at(hn, c) <= 14 * done.len() by {
                        if c != q {
                            assert(s1.discovered(hn, c));
                        }
                    }
                    assert forall|c: Cell, x: Cell|
                        in_bounds(map@, c) && self.closed_at(hn, c) && Some(current) != Some(c) && is_open(map@, x) && #[trigger] adjacent(c, x)
                        implies self.discovered(hn, x) by {
                        assert(s1.discovered(hn, x));
                    }
                    assert forall|c: Cell| #[trigger] self.frontier@.contains(c) implies is_open(map@, c) && !self.closed_at(hn, c) by {
                        if c != q {
                            assert(s1.frontier@.contains(c));
                        }
                    }
                    assert(current != q);
                    assert(self.pred_at(hn, start) is None);
                    assert(self.frontier@.no_duplicates());
                    assert(self.g_at(hn, current) == s1.g_at(hn, current));
                    let n = w * h;
                    assert(self.closed@.len() == n);
                    assert(self.came_from@.len() == n);
                    assert(self.g_cost@.len() == n);
                    assert(self.f_cost@.len() == n);
                    assert(self.closed@ == s1.closed@);
                    assert forall|c: Cell| in_bounds(map@, c) && #[trigger] self.closed_at(hn, c) implies is_open(map@, c) by {
                        assert(s1.closed_at(hn, c));
                    }
                    assert(self.discovered(hn, start));
                    assert(done.finite());
                    assert(forall|i: int| 0 <= i < n ==> (self.closed@[i] <==> #[trigger] done.contains(i)));
                    assert(!self.closed_at(hn, end));
                }
            }
            proof {
                assert forall|j: int| 0 <= j < k + 1 && is_open(map@, #[trigger] candidates@[j]) implies self.discovered(h as nat, candidates@[j]) by {
                    if j == k {
                        if !self.frontier@.contains(q) && !self.closed_at(h as nat, q) {
                        }
                    }
                }
            }
            k = k + 1;
        }
    }
}


/// Fresh tables for a `w` by `h` grid: nothing expanded, no predecessors,
/// all costs zero, and only `start` in the frontier.
fn new_search(w: usize, h: usize, start: Cell) -> (s: Search)
    ensures
        s.closed@.len() == w * h,
        s.came_from@.len() == w * h,
        s.g_cost@.len() == w * h,
        s.f_cost@.len() == w * h,
        forall|i: int| 0 <= i < w * h ==> !(#[trigger] s.closed@[i]),
        forall|i: int| 0 <= i < w * h ==> (#[trigger] s.came_from@[i]) is None,
        forall|i: int| 0 <= i < w * h ==> #[trigger] s.g_cost@[i] == 0,
        s.frontier@ == seq![start],
{
    let mut closed: Vec<bool> = Vec::new();
    let mut came_from: Vec<Option<Cell>> = Vec::new();
    let mut g_cost: Vec<u128> = Vec::new();
    let mut f_cost: Vec<u128> = Vec::new();
    let mut x: usize = 0;
    while x < w
        invariant
            0 <= x <= w,
            closed@.len() == x * h,
            came_from@.len() == x * h,
            g_cost@.len() == x * h,
            f_cost@.len() == x * h,
            forall|i: int| 0 <= i < closed@.len() ==> !(#[trigger] closed@[i]),
            forall|i: int| 0 <= i < came_from@.len() ==> (#[trigger] came_from@[i]) is None,
            forall|i: int| 0 <= i < g_cost@.len() ==> #[trigger] g_cost@[i] == 0,
        decreases w - x,
    {
        let mut y: usize = 0;
        while y < h
            invariant
                0 <= x < w,
                0 <= y <= h,
                closed@.len() == x * h + y,
                came_from@.len() == x * h + y,
                g_cost@.len() == x * h + y,
                f_cost@.len() == x * h + y,
                forall|i: int| 0 <= i < closed@.len() ==> !(#[trigger] closed@[i]),
                forall|i: int| 0 <= i < came_from@.len() ==> (#[trigger] came_from@[i]) is None,
                forall|i: int| 0 <= i < g_cost@.len() ==> #[trigger] g_cost@[i] == 0,
            decreases h - y,
        {
            closed.push(false);
            came_from.push(None);
            g_cost.push(0);
            f_cost.push(0);
            y = y + 1;
        }
        proof {
            assert((x + 1) * h == x * h + h) by (nonlinear_arith);
        }
        x = x + 1;
    }
    let mut frontier: Vec<Cell> = Vec::new();
    frontier.push(start);
    assert(frontier@ =~= seq![start]);
    Search { frontier, closed, came_from, g_cost, f_cost }
}

impl Search {
    /// When the frontier is empty, every walk that begins at an expanded
    /// cell stays among expanded cells.
    proof fn lemma_walk_stays_closed(self, map: Seq<Vec<usize>>, start: Cell, end: Cell, done: Set<int>, p: Seq<Cell>, k: int)
        requires
            self.inv(map, start, end, done, None),
            self.frontier@.len() == 0,
            is_walk(map, p),
            0 <= k < p.len(),
            self.closed_at(height(map), p[0]),
        ensures
            self.closed_at(height(map), p[k]),
        decreases k,
    {
        if k > 0 {
            self.lemma_walk_stays_closed(map, start, end, done, p, k - 1);
            assert(adjacent(p[k - 1], p[k]));
            assert(is_open(map, p[k]));
            assert(is_open(map, p[k - 1]));
            assert(self.discovered(height(map), p[k]));
        }
    }
}

impl Search {
    proof fn lemma_initial(self, map: Seq<Vec<usize>>, start: Cell, end: Cell)
        requires
            well_formed(map),
            is_open(map, start),
            is_open(map, end),
            self.closed@.len() == width(map) * height(map),
            self.came_from@.len() == width(map) * height(map),
            self.g_cost@.len() == width(map) * height(map),
            self.f_cost@.len() == width(map) * height(map),
            forall|i: int| 0 <= i < width(map) * height(map) ==> !(#[trigger] self.closed@[i]),
            forall|i: int| 0 <= i < width(map) * height(map) ==> (#[trigger] self.came_from@[i]) is None,
            forall|i: int| 0 <= i < width(map) * height(map) ==> #[trigger] self.g_cost@[i] == 0,
            self.frontier@ == seq![start],
        ensures
            self.inv(map, start, end, Set::empty(), None),
    {
        let h = height(map);
        let w = width(map);
        assert forall|c: Cell| #[trigger] self.frontier@.contains(c) implies c == start by {
            assert(self.frontier@[0] == start);
        }
        assert(self.frontier@.contains(start)) by {
            assert(self.frontier@[0] == start);
        }
        lemma_index_in_range(w, h, end);
        lemma_index_in_range(w, h, start);
        assert forall|c: Cell| in_bounds(map, c) implies !(#[trigger] self.closed_at(h, c)) by {
            lemma_index_in_range(w, h, c);
        }
        assert forall|c: Cell| in_bounds(map, c) implies (#[trigger] self.pred_at(h, c)) is None by {
            lemma_index_in_range(w, h, c);
        }
        assert forall|c: Cell| in_bounds(map, c) implies #[trigger] self.g_at(h, c) == 0 by {
            lemma_index_in_range(w, h, c);
        }
        assert forall|c: Cell| in_bounds(map, c) && #[trigger] self.discovered(h, c) && c != start implies self.pred_at(h, c) is Some by {
            assert(!self.closed_at(h, c));
        }
        assert forall|c: Cell, q: Cell|
            in_bounds(map, c) && self.closed_at(h, c) && None::<Cell> != Some(c) && is_open(map, q) && #[trigger] adjacent(c, q)
            implies self.discovered(h, q) by {
            assert(!self.closed_at(h, c));
        }
        assert(self.frontier@.no_duplicates());
    }

    proof fn lemma_ranked(self, map: Seq<Vec<usize>>, start: Cell, end: Cell, done: Set<int>, pending: Option<Cell>)
        requires
            self.inv(map, start, end, done, pending),
        ensures
            ranked(self.came_from@, self.g_cost@, width(map), height(map)),
    {
        let h = height(map);
        assert forall|c: Cell| c.0 < width(map) && c.1 < h && (#[trigger] self.came_from@[index_of(h, c)]) is Some implies {
            let p = self.came_from@[index_of(h, c)].unwrap();
            p.0 < width(map) && p.1 < h && self.g_cost@[index_of(h, p)] < self.g_cost@[index_of(h, c)]
        } by {
            assert(in_bounds(map, c));
            assert(self.pred_at(h, c) is Some);
        }
    }

    /// The chain of predecessors read back from the goal is a walk from
    /// `start` to the goal.
    proof fn lemma_trace_connects(self, map: Seq<Vec<usize>>, start: Cell, end: Cell, done: Set<int>, p: Seq<Cell>)
        requires
            self.inv(map, start, end, done, None),
            self.frontier@.contains(end),
            is_trace(self.came_from@, height(map), p, end),
            forall|k: int| 0 <= k < p.len() ==> in_bounds(map, #[trigger] p[k]),
        ensures
            connects(map, p, start, end),
            start == end ==> p == seq![start],
    {
        let h = height(map);
        assert forall|k: int| 0 <= k < p.len() - 1 implies is_open(map, p[k]) && adjacent(#[trigger] p[k], p[k + 1]) by {
            assert(in_bounds(map, p[k + 1]));
            assert(self.pred_at(h, p[k + 1]) == Some(p[k]));
        }
        assert forall|k: int| 0 <= k < p.len() implies is_open(map, #[trigger] p[k]) by {
            if k < p.len() - 1 {
                assert(is_open(map, p[k]) && adjacent(p[k], p[k + 1]));
            }
        }
        assert(self.discovered(h, end));
        assert(in_bounds(map, p[0]));
        if p.len() > 1 {
            assert(self.pred_at(h, p[1]) == Some(p[0]));
            assert(self.discovered(h, p[0]));
            if start == end {
                assert(self.pred_at(h, p[p.len() - 1]) is Some);
            }
        }
        if start == end {
            assert(p =~= seq![start]);
        }
    }

    /// Taking the first cell off the frontier and marking it expanded keeps
    /// what holds between steps, with that cell pending.
    proof fn lemma_close(s0: Search, s: Search, map: Seq<Vec<usize>>, start: Cell, end: Cell, done: Set<int>, current: Cell)
        requires
            s0.inv(map, start, end, done, None),
            well_formed(map),
            is_open(map, end),
            s0.frontier@.len() > 0,
            current == s0.frontier@[0],
            current != end,
            s.frontier@ == s0.frontier@.remove(0),
            s.closed@ == s0.closed@.update(index_of(height(map), current), true),
            s.came_from@ == s0.came_from@,
            s.g_cost@ == s0.g_cost@,
            s.f_cost@ == s0.f_cost@,
        ensures
            s.inv(map, start, end, done.insert(index_of(height(map), current)), Some(current)),
            done.insert(index_of(height(map), current)).len() == done.len() + 1,
            done.insert(index_of(height(map), current)).len() <= width(map) * height(map),
            forall|c: Cell| in_bounds(map, c) && #[trigger] s0.discovered(height(map), c) ==> s.discovered(height(map), c),
    {
        let h = height(map);
        let w = width(map);
        let n = w * h;
        let ci = index_of(h, current);
        lemma_remove_first(s0.frontier@);
        lemma_index_injective_all(h);
        assert(s0.frontier@.contains(current)) by {
            assert(s0.frontier@[0] == current);
        }
        lemma_index_in_range(w, h, current);
        lemma_index_in_range(w, h, end);
        assert(!done.contains(ci));
        let d = done.insert(ci);
        vstd::set_lib::lemma_int_range(0, n as int);
        assert(d.subset_of(vstd::set_lib::set_int_range(0, n as int)));
        vstd::set_lib::lemma_len_subset(d, vstd::set_lib::set_int_range(0, n as int));
        assert forall|c: Cell| in_bounds(map, c) && c != current implies #[trigger] s.closed_at(h, c) == s0.closed_at(h, c) by {
            lemma_index_in_range(w, h, c);
        }
        assert forall|c: Cell| in_bounds(map, c) && #[trigger] s.discovered(h, c) implies s0.discovered(h, c) by {
            if c != current && !s.closed_at(h, c) {
                assert(s.frontier@.contains(c));
            }
        }
        assert forall|c: Cell| in_bounds(map, c) && #[trigger] s0.discovered(h, c) implies s.discovered(h, c) by {
            if c != current && !s0.closed_at(h, c) {
                assert(s0.frontier@.contains(c));
            }
        }
        assert forall|c: Cell| #[trigger] s.frontier@.contains(c) implies is_open(map, c) && !s.closed_at(h, c) by {
            assert(s0.frontier@.contains(c));
        }
        assert forall|c: Cell| in_bounds(map, c) && #[trigger] s.closed_at(h, c) implies is_open(map, c) by {
            if c != current {
                assert(s0.closed_at(h, c));
            }
        }
        assert forall|c: Cell| in_bounds(map, c) && (#[trigger] s.pred_at(h, c)) is Some implies {
            let p = s.pred_at(h, c).unwrap();
            in_bounds(map, p) && s.closed_at(h, p) && adjacent(p, c) && s.g_at(h, p) < s.g_at(h, c)
        } by {
            assert(s0.pred_at(h, c) is Some);
            let p = s0.pred_at(h, c).unwrap();
            assert(s0.closed_at(h, p));
            if p != current {
                assert(s.closed_at(h, p) == s0.closed_at(h, p));
            }
        }
        assert forall|c: Cell| in_bounds(map, c) && #[trigger] s.discovered(h, c) && c != start implies s.pred_at(h, c) is Some by {
            assert(s0.discovered(h, c));
        }
        assert forall|c: Cell| in_bounds(map, c) && #[trigger] s.discovered(h, c) implies s.g_at(h, c) <= 14 * d.len() by {
            assert(s0.discovered(h, c));
        }
        assert forall|c: Cell, q: Cell|
            in_bounds(map, c) && s.closed_at(h, c) && Some(current) != Some(c) && is_open(map, q) && #[trigger] adjacent(c, q)
            implies s.discovered(h, q) by {
            assert(s0.closed_at(h, c));
            assert(s0.discovered(h, q));
        }
        assert forall|i: int| 0 <= i < n implies (s.closed@[i] <==> #[trigger] d.contains(i)) by {
            if i != ci {
                assert(s0.closed@[i] <==> done.contains(i));
            }
        }
        assert(s0.discovered(h, start));
        assert(s.discovered(h, start));
        assert(s0.discovered(h, current));
        assert(s.g_at(h, current) <= 14 * done.len());
        assert(!s.closed_at(h, end));
    }

    proof fn lemma_expanded(self, map: Seq<Vec<usize>>, start: Cell, end: Cell, done: Set<int>, current: Cell)
        requires
            self.inv(map, start, end, done, Some(current)),
            forall|q: Cell| is_open(map, q) && #[trigger] adjacent(current, q) ==> self.discovered(height(map), q),
        ensures
            self.inv(map, start, end, done, None),
    {
        let h = height(map);
        assert forall|c: Cell, q: Cell|
            in_bounds(map, c) && self.closed_at(h, c) && None::<Cell> != Some(c) && is_open(map, q) && #[trigger] adjacent(c, q)
            implies self.discovered(h, q) by {
            if c != current {
                assert(Some(current) != Some(c));
            }
        }
    }
}

/// The route from `start` to `end` that the best-first search finds, as
/// `[x, y]` pairs; empty when no walk over open cells joins them.
pub fn a_star_path_finding(map: &Vec<Vec<usize>>, start: Cell, end: Cell) -> (r: Vec<Vec<usize>>)
    requires
        well_formed(map@),
        is_open(map@, start),
        is_open(map@, end),
    ensures
        is_pair_list(r@),
        r@.len() > 0 <==> reachable(map@, start, end),
        r@.len() > 0 ==> connects(map@, route_cells(r@), start, end),
        start == end ==> route_cells(r@) == seq![start],
        (forall|c: Cell| in_bounds(map@, c) ==> #[trigger] is_open(map@, c)) ==> r@.len() > 0,
{
    let w = map.len();
    let h = map[0].len();
    let mut s = new_search(w, h, start);
    let n = s.closed.len();
    assert(n == w * h);
    let ghost mut done: Set<int> = Set::empty();
    proof {
        s.lemma_initial(map@, start, end);
    }
    while s.frontier.len() > 0
        invariant
            s.inv(map@, start, end, done, None),
            well_formed(map@),
            w == width(map@),
            h == height(map@),
            n == w * h,
            is_open(map@, start),
            is_open(map@, end),
        decreases n - done.len(),
    {
        proof {
            vstd::set_lib::lemma_int_range(0, n as int);
            vstd::set_lib::lemma_len_subset(done, vstd::set_lib::set_int_range(0, n as int));
        }
        let ghost s0 = s;
        let current = s.frontier.remove(0);
        if current.0 == end.0 && current.1 == end.1 {
            proof {
                s0.lemma_ranked(map@, start, end, done, None);
            }
            let r = find_path(&s.came_from, &s.g_cost, w, h, end);
            proof {
                assert(s0.frontier@[0] == current);
                assert(s0.frontier@.contains(end));
                s0.lemma_trace_connects(map@, start, end, done, route_cells(r@));
            }
            return r;
        }
        proof {
            assert(s0.frontier@[0] == current);
            assert(s0.frontier@.contains(current));
            lemma_index_in_range(w as nat, h as nat, current);
        }
        let ci = flat_index(w, h, current);
        s.closed.set(ci, true);
        proof {
            Search::lemma_close(s0, s, map@, start, end, done, current);
            done = done.insert(ci as int);
        }
        let diag = get_diagonal_neighbors(w, h, current);
        s.expand(map, w, h, current, end, &diag, CORNER_COST, Ghost(start), Ghost(done));
        let ghost s1 = s;
        let side = get_neighbors(w, h, current);
        s.expand(map, w, h, current, end, &side, SIDE_COST, Ghost(start), Ghost(done));
        proof {
            assert forall|q: Cell| is_open(map@, q) && #[trigger] adjacent(current, q) implies s.discovered(h as nat, q) by {
                if corner_adjacent(current, q) {
                    assert(diag@.contains(q));
                    let k = choose|k: int| 0 <= k < diag@.len() && diag@[k] == q;
                    assert(s1.discovered(h as nat, diag@[k]));
                } else {
                    assert(side_adjacent(current, q));
                    assert(side@.contains(q));
                    let k = choose|k: int| 0 <= k < side@.len() && side@[k] == q;
                }
            }
            s.lemma_expanded(map@, start, end, done, current);
        }
    }
    proof {
        if forall|c: Cell| in_bounds(map@, c) ==> #[trigger] is_open(map@, c) {
            lemma_open_grid_reachable(map@, start, end);
        }
        if reachable(map@, start, end) {
            let p = choose|p: Seq<Cell>| connects(map@, p, start, end);
            assert(s.discovered(h as nat, start));
            assert(!s.frontier@.contains(start));
            s.lemma_walk_stays_closed(map@, start, end, done, p, p.len() - 1);
        }
    }
    Vec::new()
}

} // verus!
