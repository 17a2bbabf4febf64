//! The cells around a cell: four that share a side, four that share a corner.
use vstd::prelude::*;
use crate::grid::Cell;

verus! {

/// `s` with `v` appended when `b` holds.
pub open spec fn push_if(s: Seq<Cell>, b: bool, v: Cell) -> Seq<Cell> {
    if b {
        s.push(v)
    } else {
        s
    }
}

proof fn lemma_push_if_contains(s: Seq<Cell>, b: bool, v: Cell)
    ensures
        forall|q: Cell| #[trigger]
            push_if(s, b, v).contains(q) <==> (s.contains(q) || (b && q == v)),
{
    if b {
        assert forall|q: Cell| #[trigger]
            push_if(s, b, v).contains(q) <==> (s.contains(q) || q == v) by {
            let t = s.push(v);
            if q == v {
                assert(t[s.len() as int] == v);
            }
            if s.contains(q) {
                let i = choose|i: int| 0 <= i < s.len() && s[i] == q;
                assert(t[i] == q);
            }
            if t.contains(q) {
                let i = choose|i: int| 0 <= i < t.len() && t[i] == q;
                if i < s.len() {
                    assert(s[i] == q);
                }
            }
        }
    }
}

/// The in-bounds cells that share a side with `p`: above, below, left, right.
pub open spec fn side_neighbors(col: nat, row: nat, p: Cell) -> Seq<Cell> {
    let s0 = push_if(Seq::empty(), p.1 > 0, (p.0, (p.1 - 1) as usize));
    let s1 = push_if(s0, p.1 + 1 < row, (p.0, (p.1 + 1) as usize));
    let s2 = push_if(s1, p.0 > 0, ((p.0 - 1) as usize, p.1));
    push_if(s2, p.0 + 1 < col, ((p.0 + 1) as usize, p.1))
}

/// The in-bounds cells that share a corner with `p`, in the order
/// (-1,-1), (+1,-1), (-1,+1), (+1,+1).
pub open spec fn corner_neighbors(col: nat, row: nat, p: Cell) -> Seq<Cell> {
    let s0 = push_if(Seq::empty(), p.0 > 0 && p.1 > 0, ((p.0 - 1) as usize, (p.1 - 1) as usize));
    let s1 = push_if(s0, p.0 + 1 < col && p.1 > 0, ((p.0 + 1) as usize, (p.1 - 1) as usize));
    let s2 = push_if(s1, p.0 > 0 && p.1 + 1 < row, ((p.0 - 1) as usize, (p.1 + 1) as usize));
    push_if(s2, p.0 + 1 < col && p.1 + 1 < row, ((p.0 + 1) as usize, (p.1 + 1) as usize))
}

/// `q` shares exactly one side with `p`.
pub open spec fn side_adjacent(p: Cell, q: Cell) -> bool {
    (p.0 == q.0 && (p.1 == q.1 + 1 || q.1 == p.1 + 1)) || (p.1 == q.1 && (p.0 == q.0 + 1 || q.0
        == p.0 + 1))
}

/// `q` shares exactly one corner with `p`.
pub open spec fn corner_adjacent(p: Cell, q: Cell) -> bool {
    (p.0 == q.0 + 1 || q.0 == p.0 + 1) && (p.1 == q.1 + 1 || q.1 == p.1 + 1)
}

/// The cells that share a side with `point` inside a `col` by `row` grid.
pub fn get_neighbors(col: usize, row: usize, point: Cell) -> (r: Vec<Cell>)
    requires
        point.0 < col,
        point.1 < row,
    ensures
        r@ == side_neighbors(col as nat, row as nat, point),
        forall|q: Cell|
            r@.contains(q) <==> (q.0 < col && q.1 < row && side_adjacent(point, q)),
{
    let mut neighbors: Vec<Cell> = Vec::new();
    if point.1 > 0 {
        neighbors.push((point.0, point.1 - 1));
    }
    if point.1 < row - 1 {
        neighbors.push((point.0, point.1 + 1));
    }
    if point.0 > 0 {
        neighbors.push((point.0 - 1, point.1));
    }
    if point.0 < col - 1 {
        neighbors.push((point.0 + 1, point.1));
    }
    proof {
        let s = side_neighbors(col as nat, row as nat, point);
        assert(neighbors@ == s);
        let p = point;
        let s0 = push_if(Seq::empty(), p.1 > 0, (p.0, (p.1 - 1) as usize));
        let s1 = push_if(s0, p.1 + 1 < row, (p.0, (p.1 + 1) as usize));
        let s2 = push_if(s1, p.0 > 0, ((p.0 - 1) as usize, p.1));
        lemma_push_if_contains(Seq::empty(), p.1 > 0, (p.0, (p.1 - 1) as usize));
        lemma_push_if_contains(s0, p.1 + 1 < row, (p.0, (p.1 + 1) as usize));
        lemma_push_if_contains(s1, p.0 > 0, ((p.0 - 1) as usize, p.1));
        lemma_push_if_contains(s2, p.0 + 1 < col, ((p.0 + 1) as usize, p.1));
    }
    neighbors
}

/// The cells that share a corner with `point` inside a `col` by `row` grid.
pub fn get_diagonal_neighbors(col: usize, row: usize, point: Cell) -> (r: Vec<Cell>)
    requires
        point.0 < col,
        point.1 < row,
    ensures
        r@ == corner_neighbors(col as nat, row as nat, point),
        forall|q: Cell|
            r@.contains(q) <==> (q.0 < col && q.1 < row && corner_adjacent(point, q)),
{
    let mut neighbors: Vec<Cell> = Vec::new();
    if point.0 > 0 && point.1 > 0 {
        neighbors.push((point.0 - 1, point.1 - 1));
    }
    if point.0 < col - 1 && point.1 > 0 {
        neighbors.push((point.0 + 1, point.1 - 1));
    }
    if point.0 > 0 && point.1 < row - 1 {
        neighbors.push((point.0 - 1, point.1 + 1));
    }
    if point.0 < col - 1 && point.1 < row - 1 {
        neighbors.push((point.0 + 1, point.1 + 1));
    }
    proof {
        let s = corner_neighbors(col as nat, row as nat, point);
        assert(neighbors@ == s);
        let p = point;
        let s0 = push_if(Seq::empty(), p.0 > 0 && p.1 > 0, ((p.0 - 1) as usize, (p.1 - 1) as usize));
        let s1 = push_if(s0, p.0 + 1 < col && p.1 > 0, ((p.0 + 1) as usize, (p.1 - 1) as usize));
        let s2 = push_if(s1, p.0 > 0 && p.1 + 1 < row, ((p.0 - 1) as usize, (p.1 + 1) as usize));
        lemma_push_if_contains(Seq::empty(), p.0 > 0 && p.1 > 0, ((p.0 - 1) as usize, (p.1 - 1) as usize));
        lemma_push_if_contains(s0, p.0 + 1 < col && p.1 > 0, ((p.0 + 1) as usize, (p.1 - 1) as usize));
        lemma_push_if_contains(s1, p.0 > 0 && p.1 + 1 < row, ((p.0 - 1) as usize, (p.1 + 1) as usize));
        lemma_push_if_contains(s2, p.0 + 1 < col && p.1 + 1 < row, ((p.0 + 1) as usize, (p.1 + 1) as usize));
    }
    neighbors
}

} // verus!
