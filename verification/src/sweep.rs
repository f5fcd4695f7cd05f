//! Beam search, step by step.
//!
//! The search is described here as a sequence of rounds over a state that
//! holds what is known of every node and the beam. The executable search is
//! proved to go through exactly these rounds, so that the answer described
//! here is the answer it gives.

use vstd::prelude::*;
use crate::board::{Direction, goal_cells};
use crate::heuristic::Heuristic;
use crate::model::{Answer, Mark, child_mark, first_mark, mark_trail, next_up};
use crate::node::open_moves;
use crate::search::spent;

verus! {

/// The width of the beam for a requested width: at least one.
pub open spec fn beam_width(width: usize) -> usize {
    if width < 1 {
        1
    } else {
        width
    }
}

/// The state of a beam search between two rounds: what is known of every
/// node made so far, and the beam, best node first.
pub struct Sweep {
    pub marks: Seq<Mark>,
    pub beam: Seq<int>,
}

/// A beam search is either still running or has ended with an answer.
pub enum Pass {
    Running(Sweep),
    Done(Answer),
}

/// How the look at a beam ends: with the next layer, or with an answer.
pub enum Scan {
    Layer(Seq<Mark>, Set<int>),
    Done(Answer),
}

/// One of the nodes in `layer` holds the board `cells`.
pub open spec fn in_boards(marks: Seq<Mark>, layer: Set<int>, cells: Seq<char>) -> bool {
    exists|x: int| #[trigger] layer.contains(x) && marks[x].cells == cells
}

/// What becomes of the nodes and of the layer when the children of node `id`
/// along `moves` are looked at in turn: a child whose board the layer holds
/// already is dropped; any other child joins the nodes and the layer. `None`
/// when the node limit forbids a child that would join.
pub open spec fn grow(
    marks: Seq<Mark>,
    layer: Set<int>,
    id: int,
    moves: Seq<Direction>,
    limit: usize,
) -> Option<(Seq<Mark>, Set<int>)>
    decreases moves.len(),
{
    if moves.len() == 0 {
        Some((marks, layer))
    } else {
        let kid = child_mark(marks, id, Heuristic::Manhattan, moves[0]);
        if in_boards(marks, layer, kid.cells) {
            grow(marks, layer, id, moves.drop_first(), limit)
        } else if spent(limit, marks.len() as int) {
            None
        } else {
            grow(
                marks.push(kid),
                layer.insert(marks.len() as int),
                id,
                moves.drop_first(),
                limit,
            )
        }
    }
}

/// The look at the rest of a beam, once the children of one of its nodes
/// have grown the layer or met the node limit.
pub open spec fn after_grow(
    grown: Option<(Seq<Mark>, Set<int>)>,
    beam: Seq<int>,
    limit: usize,
) -> Scan
    decreases beam.len(), 1nat,
{
    match grown {
        None => Scan::Done(Answer::OutOfNodes),
        Some((marks, layer)) => scan(marks, beam, layer, limit),
    }
}

/// The look at a beam, node by node: a node that holds the goal ends the
/// search; any other node has its children grow the layer.
pub open spec fn scan(marks: Seq<Mark>, beam: Seq<int>, layer: Set<int>, limit: usize) -> Scan
    decreases beam.len(), 0nat,
{
    if beam.len() == 0 {
        Scan::Layer(marks, layer)
    } else {
        let id = beam[0];
        if marks[id].cells == goal_cells() {
            Scan::Done(Answer::Solved(mark_trail(marks, id)))
        } else {
            after_grow(
                grow(marks, layer, id, open_moves(marks[id].cells), limit),
                beam.drop_first(),
                limit,
            )
        }
    }
}

/// The best `width` nodes of a layer, best first; all of them if the layer
/// holds fewer.
pub open spec fn pick(marks: Seq<Mark>, layer: Set<int>, width: nat) -> Seq<int>
    decreases width,
{
    if width == 0 || (forall|x: int| !layer.contains(x)) {
        Seq::empty()
    } else {
        let x = next_up(marks, layer);
        seq![x] + pick(marks, layer.remove(x), (width - 1) as nat)
    }
}

/// One round of a beam search: the beam is looked at, and the best nodes of
/// the layer that its children make are the next beam.
pub open spec fn sweep_step(sweep: Sweep, width: usize, limit: usize) -> Pass {
    match scan(sweep.marks, sweep.beam, Set::empty(), limit) {
        Scan::Done(answer) => Pass::Done(answer),
        Scan::Layer(marks, layer) => Pass::Running(
            Sweep { marks, beam: pick(marks, layer, beam_width(width) as nat) },
        ),
    }
}

/// Where a beam search from `start` stands after `rounds` rounds.
pub open spec fn sweep_after(start: Seq<char>, width: usize, limit: usize, rounds: nat) -> Pass
    decreases rounds,
{
    if rounds == 0 {
        Pass::Running(Sweep { marks: seq![first_mark(start, Heuristic::Manhattan)], beam: seq![0int] })
    } else {
        match sweep_after(start, width, limit, (rounds - 1) as nat) {
            Pass::Running(sweep) => sweep_step(sweep, width, limit),
            Pass::Done(answer) => Pass::Done(answer),
        }
    }
}

/// The beam search from `start` with the width `width` and the node limit
/// `limit` ends, after some number of rounds, with the answer `a`.
pub open spec fn beam_answer(start: Seq<char>, width: usize, limit: usize, a: Answer) -> bool {
    exists|rounds: nat| sweep_after(start, width, limit, rounds) == Pass::Done(a)
}

/// A search that has ended stays as it ended.
proof fn lemma_done_stays(
    start: Seq<char>,
    width: usize,
    limit: usize,
    early: nat,
    late: nat,
    a: Answer,
)
    requires
        early <= late,
        sweep_after(start, width, limit, early) == Pass::Done(a),
    ensures
        sweep_after(start, width, limit, late) == Pass::Done(a),
    decreases late,
{
    if early < late {
        lemma_done_stays(start, width, limit, early, (late - 1) as nat, a);
    }
}

/// A beam search has one answer: the board, the width and the node limit
/// decide how it ends.
pub proof fn lemma_one_answer(start: Seq<char>, width: usize, limit: usize, a: Answer, b: Answer)
    requires
        beam_answer(start, width, limit, a),
        beam_answer(start, width, limit, b),
    ensures
        a == b,
{
    let i = choose|i: nat| sweep_after(start, width, limit, i) == Pass::Done(a);
    let j = choose|j: nat| sweep_after(start, width, limit, j) == Pass::Done(b);
    if i <= j {
        lemma_done_stays(start, width, limit, i, j, a);
    } else {
        lemma_done_stays(start, width, limit, j, i, b);
    }
}

} // verus!
