//! Best-first search, step by step.
//!
//! The search is described here as a sequence of rounds over a state that
//! holds what is known of every node, the nodes that wait, and the boards
//! that are settled. The executable search is proved to go through exactly
//! these rounds, so that the answer described here is the answer it gives.

use vstd::prelude::*;
use crate::board::{Direction, goal_cells};
use crate::heuristic::Heuristic;
use crate::model::{Answer, Mark, child_mark, first_mark, mark_trail, next_up};
use crate::node::open_moves;
use crate::search::spent;

verus! {

/// The state of a best-first search: what is known of every node made so
/// far, the nodes that wait to be expanded, and the boards that are settled.
pub struct Hunt {
    pub marks: Seq<Mark>,
    pub waiting: Set<int>,
    pub settled: Set<Seq<char>>,
}

/// A search is either still running or has ended with an answer.
pub enum Progress {
    Running(Hunt),
    Done(Answer),
}

/// The state in which a best-first search from `start` begins: the first
/// board waits and nothing is settled.
pub open spec fn hunt_start(start: Seq<char>, h: Heuristic) -> Hunt {
    Hunt { marks: seq![first_mark(start, h)], waiting: set![0int], settled: Set::empty() }
}

/// What becomes of the search when the children of node `id` along `moves`
/// are looked at in turn: a child whose board is settled is dropped; any
/// other child joins the nodes and the frontier, unless the node limit
/// forbids one more node, which ends the search.
pub open spec fn admit_all(
    hunt: Hunt,
    id: int,
    moves: Seq<Direction>,
    h: Heuristic,
    limit: usize,
) -> Progress
    decreases moves.len(),
{
    if moves.len() == 0 {
        Progress::Running(hunt)
    } else {
        let kid = child_mark(hunt.marks, id, h, moves[0]);
        if hunt.settled.contains(kid.cells) {
            admit_all(hunt, id, moves.drop_first(), h, limit)
        } else if spent(limit, hunt.marks.len() as int) {
            Progress::Done(Answer::OutOfNodes)
        } else {
            admit_all(
                Hunt {
                    marks: hunt.marks.push(kid),
                    waiting: hunt.waiting.insert(hunt.marks.len() as int),
                    settled: hunt.settled,
                },
                id,
                moves.drop_first(),
                h,
                limit,
            )
        }
    }
}

/// One round of a best-first search: with nothing waiting the search ends
/// without a solution; otherwise the node to look at next leaves the
/// frontier, ends the search if it holds the goal, and else has its board
/// settled and its children looked at.
pub open spec fn hunt_step(hunt: Hunt, h: Heuristic, limit: usize) -> Progress {
    if forall|x: int| !hunt.waiting.contains(x) {
        Progress::Done(Answer::NoSolution)
    } else {
        let id = next_up(hunt.marks, hunt.waiting);
        let cells = hunt.marks[id].cells;
        if cells == goal_cells() {
            Progress::Done(Answer::Solved(mark_trail(hunt.marks, id)))
        } else {
            admit_all(
                Hunt {
                    marks: hunt.marks,
                    waiting: hunt.waiting.remove(id),
                    settled: hunt.settled.insert(cells),
                },
                id,
                open_moves(cells),
                h,
                limit,
            )
        }
    }
}

/// Where a best-first search from `start` stands after `rounds` rounds.
pub open spec fn hunt_after(start: Seq<char>, h: Heuristic, limit: usize, rounds: nat) -> Progress
    decreases rounds,
{
    if rounds == 0 {
        Progress::Running(hunt_start(start, h))
    } else {
        match hunt_after(start, h, limit, (rounds - 1) as nat) {
            Progress::Running(hunt) => hunt_step(hunt, h, limit),
            Progress::Done(answer) => Progress::Done(answer),
        }
    }
}

/// The best-first search from `start` with the estimate `h` and the node
/// limit `limit` ends, after some number of rounds, with the answer `a`.
pub open spec fn astar_answer(start: Seq<char>, h: Heuristic, limit: usize, a: Answer) -> bool {
    exists|rounds: nat| hunt_after(start, h, limit, rounds) == Progress::Done(a)
}

/// A search that has ended stays as it ended.
proof fn lemma_done_stays(
    start: Seq<char>,
    h: Heuristic,
    limit: usize,
    early: nat,
    late: nat,
    a: Answer,
)
    requires
        early <= late,
        hunt_after(start, h, limit, early) == Progress::Done(a),
    ensures
        hunt_after(start, h, limit, late) == Progress::Done(a),
    decreases late,
{
    if early < late {
        lemma_done_stays(start, h, limit, early, (late - 1) as nat, a);
    }
}

/// A best-first search has one answer: the board, the estimate and the node
/// limit decide how it ends.
pub proof fn lemma_one_answer(start: Seq<char>, h: Heuristic, limit: usize, a: Answer, b: Answer)
    requires
        astar_answer(start, h, limit, a),
        astar_answer(start, h, limit, b),
    ensures
        a == b,
{
    let i = choose|i: nat| hunt_after(start, h, limit, i) == Progress::Done(a);
    let j = choose|j: nat| hunt_after(start, h, limit, j) == Progress::Done(b);
    if i <= j {
        lemma_done_stays(start, h, limit, i, j, a);
    } else {
        lemma_done_stays(start, h, limit, j, i, b);
    }
}

} // verus!
