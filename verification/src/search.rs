//! What the two searches share: the outcome of a search, the node budget,
//! and the facts about a search in progress that both proofs build on.

use vstd::prelude::*;
use crate::board::{
    Direction, can_move, legal, step, lemma_edge_is_no_move, lemma_legal_one_blank,
    lemma_position_exists, BLANK, position,
};
use crate::heuristic::Heuristic;
use crate::model::Answer;
use crate::node::{
    Node, child_of, code, node_ok, nodes_ok, open_moves, open_moves_upto, tried, lemma_code_small,
    lemma_code_tells, lemma_push_keeps,
};

verus! {

/// How a search ended.
#[derive(PartialEq, Eq, Debug)]
pub enum Outcome {
    /// The goal was reached: the number of moves and the moves themselves,
    /// in the order in which to make them.
    Solved { moves: usize, path: Vec<Direction> },
    /// The node budget did not allow the search to go on.
    OutOfNodes,
    /// No node was left to expand: the goal cannot be reached.
    NoSolution,
}

/// The answer that an outcome stands for.
pub open spec fn answer_of(o: Outcome) -> Answer {
    match o {
        Outcome::Solved { moves, path } => Answer::Solved(path@),
        Outcome::OutOfNodes => Answer::OutOfNodes,
        Outcome::NoSolution => Answer::NoSolution,
    }
}

/// The budget forbids another node: a limit is set and that many nodes exist.
///
/// The budget counts the nodes that a search keeps: the first board and
/// every board that is admitted to wait for expansion. Zero means no limit.
pub open spec fn spent(limit: usize, made: int) -> bool {
    limit != 0 && made >= limit
}

/// Executable form of [`spent`].
pub fn budget_spent(limit: usize, made: usize) -> (r: bool)
    ensures
        r == spent(limit, made as int),
{
    limit != 0 && made >= limit
}

/// The node `n` holds the board `cells` and reached it in at most `bound` moves.
pub open spec fn fits(n: Node, cells: Seq<char>, bound: int) -> bool {
    n.state@ == cells && n.moves <= bound
}

/// Every index in `ids` is the index of a node.
pub open spec fn ids_ok(nodes: Seq<Node>, ids: Seq<usize>) -> bool {
    forall|j: int| 0 <= j < ids.len() ==> (#[trigger] ids[j]) < nodes.len()
}

/// Every direction in which the blank can move is among the open moves.
pub proof fn lemma_open_moves_complete(cells: Seq<char>, d: Direction)
    requires
        can_move(cells, d),
    ensures
        exists|i: int| 0 <= i < open_moves(cells).len() && #[trigger] open_moves(cells)[i] == d,
{
    let t = tried();
    let k: int = if d == Direction::Up {
        0
    } else if d == Direction::Left {
        1
    } else if d == Direction::Down {
        2
    } else {
        3
    };
    assert(t[k] == d);
    lemma_open_moves_has(cells, 4, k);
    let all = open_moves_upto(cells, 4);
    let i = choose|i: int| 0 <= i < all.len() && #[trigger] all[i] == t[k];
    assert(open_moves(cells)[i] == d);
}

/// A direction among the first `n` tried in which the blank can move is
/// among the open moves that they give.
proof fn lemma_open_moves_has(cells: Seq<char>, n: int, k: int)
    requires
        0 <= k < n <= 4,
        can_move(cells, tried()[k]),
    ensures
        exists|i: int|
            0 <= i < open_moves_upto(cells, n).len() && #[trigger] open_moves_upto(cells, n)[i]
                == tried()[k],
    decreases n,
{
    let here = open_moves_upto(cells, n);
    let before = open_moves_upto(cells, n - 1);
    if k == n - 1 {
        assert(here[before.len() as int] == tried()[k]);
    } else {
        lemma_open_moves_has(cells, n - 1, k);
        let i = choose|i: int| 0 <= i < before.len() && #[trigger] before[i] == tried()[k];
        assert(here[i] == tried()[k]);
    }
}

/// The blank of a board can always move up or down.
pub proof fn lemma_some_move(cells: Seq<char>)
    requires
        cells.len() == 9,
        cells.contains(BLANK),
    ensures
        can_move(cells, Direction::Up) || can_move(cells, Direction::Down),
        open_moves(cells).len() >= 1,
{
    lemma_position_exists(cells, BLANK);
    let p = position(cells, BLANK);
    if can_move(cells, Direction::Up) {
        lemma_open_moves_complete(cells, Direction::Up);
    } else {
        lemma_open_moves_complete(cells, Direction::Down);
    }
}

/// A move of a legal board gives a board with another number.
pub proof fn lemma_step_changes_code(cells: Seq<char>, d: Direction)
    requires
        legal(cells),
        can_move(cells, d),
    ensures
        code(step(cells, d)) != code(cells),
        legal(step(cells, d)),
{
    lemma_legal_one_blank(cells);
    lemma_edge_is_no_move(cells, d);
    crate::board::lemma_step_legal(cells, d);
    if code(step(cells, d)) == code(cells) {
        lemma_code_tells(step(cells, d), cells);
    }
}

/// A child that is added at the end of the nodes fits its parent there.
pub proof fn lemma_child_ok(
    nodes: Seq<Node>,
    id: usize,
    kid: Node,
    d: Direction,
    start: Seq<char>,
    h: Heuristic,
)
    requires
        nodes_ok(nodes, start, h),
        id < nodes.len(),
        child_of(kid, nodes[id as int], id, h, d),
    ensures
        nodes_ok(nodes.push(kid), start, h),
        legal(kid.state@),
{
    assert(node_ok(nodes, id as int, start, h));
    crate::board::lemma_step_legal(nodes[id as int].state@, d);
    let more = nodes.push(kid);
    assert(more[id as int] == nodes[id as int]);
    assert(node_ok(more, nodes.len() as int, start, h));
    lemma_push_keeps(nodes, kid, start, h);
}

/// Two legal boards have the same key only if they are the same board.
pub proof fn lemma_key_tells(a: Seq<char>, b: Seq<char>)
    requires
        legal(a),
        legal(b),
        code(a) as u64 == code(b) as u64,
    ensures
        a == b,
{
    lemma_code_small(a);
    lemma_code_small(b);
    lemma_code_tells(a, b);
}

} // verus!
