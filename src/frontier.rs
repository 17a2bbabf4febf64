//! The frontier: cells found but not yet expanded, kept in ascending order of
//! their combined cost, earlier finds first among equal costs.
use vstd::prelude::*;
use crate::grid::{Cell, index_of};

verus! {

/// The combined cost that the table `f` holds for cell `c`.
pub open spec fn cost_of(f: Seq<u128>, h: nat, c: Cell) -> u128 {
    f[index_of(h, c)]
}

/// Every cell of `s` has an entry in a table of `len` entries.
pub open spec fn all_indexed(s: Seq<Cell>, h: nat, len: nat) -> bool {
    forall|i: int| 0 <= i < s.len() ==> 0 <= #[trigger] index_of(h, s[i]) < len
}

pub proof fn lemma_insert_contains(s: Seq<Cell>, pos: int, q: Cell)
    requires
        0 <= pos <= s.len(),
    ensures
        forall|x: Cell| #[trigger] s.insert(pos, q).contains(x) <==> (s.contains(x) || x == q),
        s.no_duplicates() && !s.contains(q) ==> s.insert(pos, q).no_duplicates(),
{
    s.insert_ensures(pos, q);
    let t = s.insert(pos, q);
    assert forall|x: Cell| #[trigger] t.contains(x) <==> (s.contains(x) || x == q) by {
        if t.contains(x) {
            let i = choose|i: int| 0 <= i < t.len() && t[i] == x;
            if i < pos {
                assert(s[i] == x);
            } else if i > pos {
                assert(s[i - 1] == x);
            }
        }
        if s.contains(x) {
            let i = choose|i: int| 0 <= i < s.len() && s[i] == x;
            if i < pos {
                assert(t[i] == x);
            } else {
                assert(t[i + 1] == x);
            }
        }
        if x == q {
            assert(t[pos] == x);
        }
    }
    if s.no_duplicates() && !s.contains(q) {
        assert forall|i: int, j: int| 0 <= i < t.len() && 0 <= j < t.len() && i != j implies t[i]
            != t[j] by {
            let si = if i < pos { i } else { i - 1 };
            let sj = if j < pos { j } else { j - 1 };
            if i != pos && j != pos {
                assert(t[i] == s[si]);
                assert(t[j] == s[sj]);
            } else if i == pos {
                assert(t[j] == s[sj]);
                assert(s.contains(s[sj]));
            } else {
                assert(t[i] == s[si]);
                assert(s.contains(s[si]));
            }
        }
    }
}

pub proof fn lemma_remove_first(s: Seq<Cell>)
    requires
        s.len() > 0,
        s.no_duplicates(),
    ensures
        s.remove(0).no_duplicates(),
        forall|x: Cell| #[trigger] s.remove(0).contains(x) <==> (s.contains(x) && x != s[0]),
{
    s.remove_ensures(0);
    let t = s.remove(0);
    assert forall|x: Cell| #[trigger] t.contains(x) <==> (s.contains(x) && x != s[0]) by {
        if t.contains(x) {
            let i = choose|i: int| 0 <= i < t.len() && t[i] == x;
            assert(s[i + 1] == x);
        }
        if s.contains(x) && x != s[0] {
            let i = choose|i: int| 0 <= i < s.len() && s[i] == x;
            assert(t[i - 1] == x);
        }
    }
    assert forall|i: int, j: int| 0 <= i < t.len() && 0 <= j < t.len() && i != j implies t[i]
        != t[j] by {
        assert(t[i] == s[i + 1]);
        assert(t[j] == s[j + 1]);
    }
}

/// Whether the frontier holds the cell.
pub fn frontier_contains(frontier: &Vec<Cell>, c: Cell) -> (r: bool)
    ensures
        r == frontier@.contains(c),
{
    let mut i: usize = 0;
    while i < frontier.len()
        invariant
            0 <= i <= frontier@.len(),
            forall|j: int| 0 <= j < i ==> frontier@[j] != c,
        decreases frontier@.len() - i,
    {
        let x = frontier[i];
        if x.0 == c.0 && x.1 == c.1 {
            return true;
        }
        i = i + 1;
    }
    false
}

/// Puts `q`, whose combined cost is `fq`, after every leading cell whose cost
/// is at most `fq`, and returns the position it took. On a frontier in
/// ascending order this keeps the order, and places `q` after the cells of
/// equal cost that were found before it.
pub fn insert_by_cost(frontier: &mut Vec<Cell>, f_cost: &Vec<u128>, h: usize, q: Cell, fq: u128) -> (pos: usize)
    requires
        all_indexed(old(frontier)@, h as nat, f_cost@.len()),
    ensures
        pos <= old(frontier)@.len(),
        final(frontier)@ == old(frontier)@.insert(pos as int, q),
        forall|j: int| 0 <= j < pos ==> cost_of(f_cost@, h as nat, #[trigger] old(frontier)@[j]) <= fq,
        pos < old(frontier)@.len() ==> cost_of(f_cost@, h as nat, old(frontier)@[pos as int]) > fq,
{
    let n = f_cost.len();
    let mut i: usize = 0;
    let mut stop = false;
    while i < frontier.len() && !stop
        invariant
            0 <= i <= frontier@.len(),
            n == f_cost@.len(),
            all_indexed(frontier@, h as nat, f_cost@.len()),
            forall|j: int| 0 <= j < i ==> cost_of(f_cost@, h as nat, #[trigger] frontier@[j]) <= fq,
            stop ==> i < frontier@.len() && cost_of(f_cost@, h as nat, frontier@[i as int]) > fq,
        decreases frontier@.len() - i, if stop { 0int } else { 1int },
    {
        let c = frontier[i];
        assert(0 <= index_of(h as nat, frontier@[i as int]) < n);
        assert(c.0 * h <= c.0 * h + c.1);
        let k = c.0 * h + c.1;
        if f_cost[k] > fq {
            stop = true;
        } else {
            i = i + 1;
        }
    }
    frontier.insert(i, q);
    i
}

} // verus!
