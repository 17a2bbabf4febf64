//! Routes: the path found, as a list of `[x, y]` pairs, and how it is read
//! back from the predecessor table.
use vstd::prelude::*;
use crate::grid::{Cell, index_of};

verus! {

/// Every entry of the route is a pair `[x, y]`.
pub open spec fn is_pair_list(r: Seq<Vec<usize>>) -> bool {
    forall|k: int| 0 <= k < r.len() ==> (#[trigger] r[k])@.len() == 2
}

/// The cells that the pairs of a route name.
pub open spec fn route_cells(r: Seq<Vec<usize>>) -> Seq<Cell> {
    r.map_values(|v: Vec<usize>| (v@[0], v@[1]))
}

/// `p` is the chain of predecessors that ends at `goal`: its first cell has no
/// predecessor, and each later cell has the one before it as predecessor.
pub open spec fn is_trace(came_from: Seq<Option<Cell>>, h: nat, p: Seq<Cell>, goal: Cell) -> bool {
    &&& p.len() > 0
    &&& p.last() == goal
    &&& came_from[index_of(h, p[0])] is None
    &&& forall|k: int| 1 <= k < p.len() ==> came_from[index_of(h, #[trigger] p[k])] == Some(p[k - 1])
}

/// Predecessors stay in the `w` by `h` grid and have a smaller cost, so that
/// following them ends.
pub open spec fn ranked(came_from: Seq<Option<Cell>>, g_cost: Seq<u128>, w: nat, h: nat) -> bool {
    &&& came_from.len() == w * h
    &&& g_cost.len() == w * h
    &&& forall|c: Cell|
        c.0 < w && c.1 < h && (#[trigger] came_from[index_of(h, c)]) is Some ==> {
            let p = came_from[index_of(h, c)].unwrap();
            p.0 < w && p.1 < h && g_cost[index_of(h, p)] < g_cost[index_of(h, c)]
        }
}

/// The route that names the cells of `cells`, in order.
pub fn to_route(cells: &Vec<Cell>) -> (r: Vec<Vec<usize>>)
    ensures
        is_pair_list(r@),
        route_cells(r@) == cells@,
{
    let mut r: Vec<Vec<usize>> = Vec::new();
    let mut i: usize = 0;
    while i < cells.len()
        invariant
            0 <= i <= cells@.len(),
            r@.len() == i,
            forall|k: int| 0 <= k < i ==> (#[trigger] r@[k])@.len() == 2,
            forall|k: int| 0 <= k < i ==> (r@[k]@[0], r@[k]@[1]) == cells@[k],
        decreases cells@.len() - i,
    {
        let c = cells[i];
        r.push(vec![c.0, c.1]);
        i = i + 1;
    }
    assert(route_cells(r@) =~= cells@);
    r
}

/// Follows the predecessors from `goal` back to a cell without one, and
/// returns that chain from its first cell to `goal`.
pub fn trace_back(came_from: &Vec<Option<Cell>>, g_cost: &Vec<u128>, w: usize, h: usize, goal: Cell) -> (p: Vec<Cell>)
    requires
        ranked(came_from@, g_cost@, w as nat, h as nat),
        goal.0 < w,
        goal.1 < h,
    ensures
        is_trace(came_from@, h as nat, p@, goal),
        forall|k: int| 0 <= k < p@.len() ==> (#[trigger] p@[k]).0 < w && p@[k].1 < h,
{
    let n = came_from.len();
    proof {
        crate::grid::lemma_index_in_range(w as nat, h as nat, goal);
    }
    let mut back: Vec<Cell> = Vec::new();
    back.push(goal);
    let mut current = goal;
    let mut more = true;
    while more
        invariant
            ranked(came_from@, g_cost@, w as nat, h as nat),
            n == came_from@.len(),
            current.0 < w,
            current.1 < h,
            back@.len() > 0,
            back@[0] == goal,
            back@.last() == current,
            forall|k: int| 0 <= k < back@.len() ==> (#[trigger] back@[k]).0 < w && back@[k].1 < h,
            forall|k: int|
                0 <= k < back@.len() - 1 ==> came_from@[index_of(h as nat, #[trigger] back@[k])]
                    == Some(back@[k + 1]),
            !more ==> came_from@[index_of(h as nat, current)] is None,
        decreases g_cost@[index_of(h as nat, current)], if more { 1int } else { 0int },
    {
        proof {
            crate::grid::lemma_index_in_range(w as nat, h as nat, current);
        }
        let i = current.0 * h + current.1;
        match came_from[i] {
            Some(prev) => {
                back.push(prev);
                current = prev;
            },
            None => {
                more = false;
            },
        }
    }
    let mut p: Vec<Cell> = Vec::new();
    let len = back.len();
    let mut j: usize = 0;
    while j < len
        invariant
            len == back@.len(),
            0 <= j <= len,
            p@.len() == j,
            forall|k: int| 0 <= k < j ==> p@[k] == back@[len - 1 - k],
        decreases len - j,
    {
        p.push(back[len - 1 - j]);
        j = j + 1;
    }
    proof {
        assert forall|k: int| 1 <= k < p@.len() implies came_from@[index_of(h as nat, #[trigger] p@[k])]
            == Some(p@[k - 1]) by {
            assert(p@[k] == back@[len - 1 - k]);
            assert(p@[k - 1] == back@[len - 1 - k + 1]);
        }
        assert forall|k: int| 0 <= k < p@.len() implies (#[trigger] p@[k]).0 < w && p@[k].1 < h by {
            assert(p@[k] == back@[len - 1 - k]);
        }
    }
    p
}

/// The route from the first cell of the predecessor chain that ends at
/// `goal`, to `goal`.
pub fn find_path(came_from: &Vec<Option<Cell>>, g_cost: &Vec<u128>, w: usize, h: usize, goal: Cell) -> (r: Vec<Vec<usize>>)
    requires
        ranked(came_from@, g_cost@, w as nat, h as nat),
        goal.0 < w,
        goal.1 < h,
    ensures
        is_pair_list(r@),
        is_trace(came_from@, h as nat, route_cells(r@), goal),
        forall|k: int| 0 <= k < r@.len() ==> (#[trigger] route_cells(r@)[k]).0 < w && route_cells(r@)[k].1 < h,
{
    let cells = trace_back(came_from, g_cost, w, h, goal);
    to_route(&cells)
}

} // verus!
