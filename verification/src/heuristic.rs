//! The two estimates of the number of moves that separate a board from the
//! goal: the count of misplaced tiles and the sum of Manhattan distances.
//!
//! The blank is left out of both, which is what keeps them from
//! overestimating. Both are proved to change by at most one with every move,
//! and so never to exceed the length of any path to the goal.

use vstd::prelude::*;
use crate::board::{
    BLANK, Direction, State, can_move, first_at, goal_cells, legal, neighbour, position, step,
    lemma_goal_legal, lemma_legal_one_blank, lemma_neighbour_on_board, lemma_position,
    lemma_position_exists, lemma_step_legal,
};
use crate::walk::{connects, valid_walk, walk};

verus! {

/// The smaller of two lengths.
pub open spec fn shorter(a: int, b: int) -> int {
    if a <= b {
        a
    } else {
        b
    }
}

/// The number of indices below `n` at which `one` holds a tile that `other`
/// does not hold there.
pub open spec fn misplaced_upto(one: Seq<char>, other: Seq<char>, n: int) -> nat
    decreases n,
{
    if n <= 0 {
        0
    } else {
        misplaced_upto(one, other, n - 1) + if one[n - 1] != BLANK && one[n - 1] != other[n - 1] {
            1nat
        } else {
            0nat
        }
    }
}

/// The number of tiles of `one` that are not where `other` has them. The
/// blank is not counted.
pub open spec fn misplaced(one: Seq<char>, other: Seq<char>) -> nat {
    misplaced_upto(one, other, shorter(one.len() as int, other.len() as int))
}

/// The number of rows plus the number of columns between indices `p` and `q`
/// of a grid three cells wide.
pub open spec fn gap(p: int, q: int) -> nat {
    let dx = p % 3 - q % 3;
    let dy = p / 3 - q / 3;
    ((if dx < 0 {
        -dx
    } else {
        dx
    }) + (if dy < 0 {
        -dy
    } else {
        dy
    })) as nat
}

/// The sum, over the tiles that `other` holds below index `n`, of the gap
/// between the tile's index in `other` and its index in `one`.
pub open spec fn manhattan_upto(one: Seq<char>, other: Seq<char>, n: int) -> nat
    decreases n,
{
    if n <= 0 {
        0
    } else {
        manhattan_upto(one, other, n - 1) + if other[n - 1] == BLANK {
            0nat
        } else {
            gap(position(one, other[n - 1]), n - 1)
        }
    }
}

/// The sum of the Manhattan distances between where `one` and `other` have
/// each tile. The blank is not counted.
pub open spec fn manhattan(one: Seq<char>, other: Seq<char>) -> nat {
    manhattan_upto(one, other, other.len() as int)
}

/// Every tile of `other` occurs in `one`.
pub open spec fn tiles_found(one: Seq<char>, other: Seq<char>) -> bool {
    forall|i: int| 0 <= i < other.len() && other[i] != BLANK ==> one.contains(#[trigger] other[i])
}

/// The count of misplaced tiles grows with the number of cells compared,
/// and is at most that number.
proof fn lemma_misplaced_grows(one: Seq<char>, other: Seq<char>, m: int, n: int)
    requires
        m <= n,
    ensures
        misplaced_upto(one, other, m) <= misplaced_upto(one, other, n),
        misplaced_upto(one, other, n) <= if n < 0 { 0 } else { n },
    decreases n - m, n,
{
    if n > 0 {
        lemma_misplaced_grows(one, other, n - 1, n - 1);
    }
    if m < n {
        lemma_misplaced_grows(one, other, m, n - 1);
    }
}

/// The Manhattan sum grows with the number of cells summed over.
proof fn lemma_manhattan_grows(one: Seq<char>, other: Seq<char>, m: int, n: int)
    requires
        m <= n,
    ensures
        manhattan_upto(one, other, m) <= manhattan_upto(one, other, n),
    decreases n - m,
{
    if m < n {
        lemma_manhattan_grows(one, other, m, n - 1);
    }
}

/// The count of misplaced tiles: the number of positions at which `one`
/// holds a tile that `other` does not hold there. Positions beyond the
/// shorter of the two are not compared, and the blank is not counted.
pub fn h1(one: &Vec<char>, other: &Vec<char>) -> (r: u32)
    requires
        misplaced(one@, other@) <= u32::MAX,
    ensures
        r == misplaced(one@, other@),
{
    let n: usize = if one.len() <= other.len() {
        one.len()
    } else {
        other.len()
    };
    let mut out: u32 = 0;
    let mut i: usize = 0;
    while i < n
        invariant
            i <= n,
            n == shorter(one.len() as int, other.len() as int),
            out == misplaced_upto(one@, other@, i as int),
            misplaced(one@, other@) <= u32::MAX,
        decreases n - i,
    {
        proof {
            lemma_misplaced_grows(one@, other@, i + 1, n as int);
        }
        if one[i] != BLANK && one[i] != other[i] {
            out += 1;
        }
        i += 1;
    }
    out
}

/// The number of rows plus the number of columns between two indices of a
/// grid three cells wide.
fn grid_gap(p: usize, q: usize) -> (r: usize)
    ensures
        r == gap(p as int, q as int),
{
    let px: usize = p % 3;
    let qx: usize = q % 3;
    let py: usize = p / 3;
    let qy: usize = q / 3;
    let dx: usize = if px <= qx {
        qx - px
    } else {
        px - qx
    };
    let dy: usize = if py <= qy {
        qy - py
    } else {
        py - qy
    };
    dx + dy
}

/// The first index at which `cells` holds `c`.
fn find(cells: &Vec<char>, c: char) -> (r: usize)
    requires
        cells@.contains(c),
    ensures
        first_at(cells@, c, r as int),
        r == position(cells@, c),
{
    let mut i: usize = 0;
    while i < cells.len()
        invariant
            i <= cells.len(),
            cells@.contains(c),
            forall|j: int| 0 <= j < i ==> cells@[j] != c,
        decreases cells.len() - i,
    {
        if cells[i] == c {
            proof {
                lemma_position(cells@, c, i as int);
            }
            return i;
        }
        i += 1;
    }
    proof {
        let k = choose|k: int| 0 <= k < cells@.len() && cells@[k] == c;
        assert(cells@[k] != c);
    }
    0
}

/// The Manhattan estimate: for every tile of `other`, the number of rows
/// plus the number of columns between its place in `other` and its first
/// place in `goal_state`, summed. The blank is not counted.
pub fn h2(goal_state: &Vec<char>, other: &Vec<char>) -> (r: u32)
    requires
        tiles_found(goal_state@, other@),
        manhattan(goal_state@, other@) <= u32::MAX,
    ensures
        r == manhattan(goal_state@, other@),
{
    let mut out: u32 = 0;
    let mut i: usize = 0;
    while i < other.len()
        invariant
            i <= other.len(),
            tiles_found(goal_state@, other@),
            out == manhattan_upto(goal_state@, other@, i as int),
            manhattan(goal_state@, other@) <= u32::MAX,
        decreases other.len() - i,
    {
        proof {
            lemma_manhattan_grows(goal_state@, other@, i + 1, other.len() as int);
        }
        let c: char = other[i];
        if c != BLANK {
            assert(goal_state@.contains(other@[i as int]));
            let at: usize = find(goal_state, c);
            let g: usize = grid_gap(at, i);
            out += g as u32;
        }
        i += 1;
    }
    out
}

/// Which estimate a search uses.
#[derive(Clone, Copy, PartialEq, Eq, Debug, Structural)]
pub enum Heuristic {
    /// The count of misplaced tiles.
    Misplaced,
    /// The sum of Manhattan distances.
    Manhattan,
}

/// The estimate of the moves that separate `cells` from the goal.
pub open spec fn estimate(h: Heuristic, cells: Seq<char>) -> nat {
    match h {
        Heuristic::Misplaced => misplaced(cells, goal_cells()),
        Heuristic::Manhattan => manhattan(cells, goal_cells()),
    }
}

/// In a legal board a symbol is found where it stands.
pub proof fn lemma_legal_position(cells: Seq<char>, i: int)
    requires
        legal(cells),
        0 <= i < 9,
    ensures
        position(cells, cells[i]) == i,
{
    assert forall|j: int| 0 <= j < i implies cells[j] != cells[i] by {}
    lemma_position(cells, cells[i], i);
}

/// The Manhattan sum over a legal board is small.
proof fn lemma_manhattan_small(cells: Seq<char>, n: int)
    requires
        legal(cells),
        0 <= n <= 9,
    ensures
        manhattan_upto(cells, goal_cells(), n) <= 4 * n,
    decreases n,
{
    if n > 0 {
        lemma_manhattan_small(cells, n - 1);
        let c = goal_cells()[n - 1];
        assert(cells.contains(c));
        lemma_position_exists(cells, c);
    }
}

/// Both estimates of a legal board are at most 36.
pub proof fn lemma_estimate_small(h: Heuristic, cells: Seq<char>)
    requires
        legal(cells),
    ensures
        estimate(h, cells) <= 36,
{
    lemma_manhattan_small(cells, 9);
    lemma_misplaced_grows(cells, goal_cells(), 9, 9);
}

/// The estimate of the moves that separate `state` from the goal.
pub fn score(h: Heuristic, state: &State) -> (r: u32)
    requires
        legal(state@),
    ensures
        r == estimate(h, state@),
        r <= 36,
{
    let cells: Vec<char> = state.cells();
    let goal: Vec<char> = State::new().cells();
    proof {
        lemma_estimate_small(Heuristic::Misplaced, state@);
        lemma_estimate_small(Heuristic::Manhattan, state@);
        lemma_estimate_small(h, state@);
        assert forall|i: int| 0 <= i < goal@.len() && goal@[i] != BLANK implies cells@.contains(
            #[trigger] goal@[i],
        ) by {
            assert(cells@.contains(goal_cells()[i]));
        }
    }
    match h {
        Heuristic::Misplaced => h1(&cells, &goal),
        Heuristic::Manhattan => h2(&cells, &goal),
    }
}

/// How the count of misplaced tiles changes when the blank of a legal board
/// moves: only the cell that the tile leaves and the one it enters matter.
proof fn lemma_misplaced_step(cells: Seq<char>, d: Direction, n: int)
    requires
        legal(cells),
        can_move(cells, d),
        0 <= n <= 9,
    ensures
        ({
            let p = position(cells, BLANK);
            let q = neighbour(p, d);
            let goal = goal_cells();
            let enters: int = if p < n && cells[q] != goal[p] { 1 } else { 0 };
            let leaves: int = if q < n && cells[q] != goal[q] { 1 } else { 0 };
            misplaced_upto(step(cells, d), goal, n) == misplaced_upto(cells, goal, n) + enters
                - leaves
        }),
    decreases n,
{
    lemma_legal_one_blank(cells);
    lemma_neighbour_on_board(cells, d);
    lemma_position_exists(cells, BLANK);
    if n > 0 {
        lemma_misplaced_step(cells, d, n - 1);
        let p = position(cells, BLANK);
        let q = neighbour(p, d);
        let next = step(cells, d);
        assert(cells[q] != BLANK);
        if n - 1 == p {
            assert(next[n - 1] == cells[q]);
        } else if n - 1 == q {
            assert(next[n - 1] == BLANK);
        } else {
            assert(next[n - 1] == cells[n - 1]);
        }
    }
}

/// How the Manhattan sum changes when the blank of a legal board moves: only
/// the tile that changes places with the blank matters.
proof fn lemma_manhattan_step(cells: Seq<char>, d: Direction, n: int)
    requires
        legal(cells),
        can_move(cells, d),
        0 <= n <= 9,
    ensures
        ({
            let p = position(cells, BLANK);
            let q = neighbour(p, d);
            let goal = goal_cells();
            let home = position(goal, cells[q]);
            let change: int = if home < n { gap(p, home) - gap(q, home) } else { 0 };
            manhattan_upto(step(cells, d), goal, n) == manhattan_upto(cells, goal, n) + change
        }),
    decreases n,
{
    lemma_legal_one_blank(cells);
    lemma_neighbour_on_board(cells, d);
    lemma_position_exists(cells, BLANK);
    lemma_goal_legal();
    lemma_step_legal(cells, d);
    let p = position(cells, BLANK);
    let q = neighbour(p, d);
    let goal = goal_cells();
    let next = step(cells, d);
    let tile = cells[q];
    assert(goal.contains(tile));
    lemma_position_exists(goal, tile);
    let home = position(goal, tile);
    if n > 0 {
        lemma_manhattan_step(cells, d, n - 1);
        let c = goal[n - 1];
        lemma_legal_position(goal, n - 1);
        if c == BLANK {
            assert(tile != BLANK);
        } else if c == tile {
            assert(home == n - 1);
            assert(next[p] == tile);
            lemma_legal_position(next, p);
            lemma_legal_position(cells, q);
        } else {
            assert(home != n - 1);
            assert(cells.contains(c));
            lemma_position_exists(cells, c);
            let at = position(cells, c);
            assert(at != p && at != q);
            assert(next[at] == c);
            lemma_legal_position(next, at);
        }
    }
}

/// Cells that change places in a move are one row or one column apart.
proof fn lemma_gap_of_neighbours(p: int, d: Direction, k: int)
    requires
        0 <= p < 9,
        0 <= k < 9,
        0 <= neighbour(p, d) < 9,
        !crate::board::at_edge(p, d),
    ensures
        gap(p, k) - gap(neighbour(p, d), k) == 1 || gap(p, k) - gap(neighbour(p, d), k) == -1,
{
}

/// A move changes either estimate by at most one.
pub proof fn lemma_estimate_step(h: Heuristic, cells: Seq<char>, d: Direction)
    requires
        legal(cells),
    ensures
        estimate(h, cells) <= estimate(h, step(cells, d)) + 1,
        estimate(h, step(cells, d)) <= estimate(h, cells) + 1,
{
    if can_move(cells, d) {
        lemma_legal_one_blank(cells);
        lemma_neighbour_on_board(cells, d);
        lemma_position_exists(cells, BLANK);
        lemma_step_legal(cells, d);
        lemma_goal_legal();
        let p = position(cells, BLANK);
        let q = neighbour(p, d);
        match h {
            Heuristic::Misplaced => {
                lemma_misplaced_step(cells, d, 9);
            },
            Heuristic::Manhattan => {
                lemma_manhattan_step(cells, d, 9);
                let tile = cells[q];
                assert(goal_cells().contains(tile));
                lemma_position_exists(goal_cells(), tile);
                lemma_gap_of_neighbours(p, d, position(goal_cells(), tile));
            },
        }
    }
}

/// Both estimates are zero at the goal.
pub proof fn lemma_estimate_goal(h: Heuristic)
    ensures
        estimate(h, goal_cells()) == 0,
{
    lemma_goal_legal();
    lemma_estimate_goal_upto(9);
}

/// Over any number of cells of the goal, both sums are zero.
proof fn lemma_estimate_goal_upto(n: int)
    requires
        0 <= n <= 9,
    ensures
        misplaced_upto(goal_cells(), goal_cells(), n) == 0,
        manhattan_upto(goal_cells(), goal_cells(), n) == 0,
    decreases n,
{
    if n > 0 {
        lemma_estimate_goal_upto(n - 1);
        lemma_goal_legal();
        lemma_legal_position(goal_cells(), n - 1);
    }
}

/// Neither estimate exceeds the number of moves that are really needed:
/// whatever path leads from a legal board to the goal, the estimate of the
/// board is at most the length of the path.
pub proof fn lemma_estimate_admissible(h: Heuristic, cells: Seq<char>, path: Seq<Direction>)
    requires
        legal(cells),
        connects(cells, path, goal_cells()),
    ensures
        estimate(h, cells) <= path.len(),
{
    lemma_estimate_along(h, cells, path);
    lemma_estimate_goal(h);
}

/// Along a path the estimate falls by at most one with every move.
pub proof fn lemma_estimate_along(h: Heuristic, cells: Seq<char>, path: Seq<Direction>)
    requires
        legal(cells),
        valid_walk(cells, path),
    ensures
        estimate(h, cells) <= estimate(h, walk(cells, path)) + path.len(),
    decreases path.len(),
{
    if path.len() > 0 {
        lemma_estimate_along(h, cells, path.drop_last());
        crate::walk::lemma_walk_legal(cells, path.drop_last());
        lemma_estimate_step(h, walk(cells, path.drop_last()), path.last());
    }
}

} // verus!
