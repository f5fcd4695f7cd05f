//! The searches as mathematics: what a search knows of a node, which node
//! it looks at next, and what a move makes of a node.
//!
//! The two searches are described step by step over these notions, and the
//! executable searches are proved to take exactly those steps. The answer of
//! a search is thereby fixed by its inputs alone.

use vstd::prelude::*;
use crate::board::{Direction, step};
use crate::frontier::before;
use crate::heuristic::{Heuristic, estimate};
use crate::node::{Node, child_of, trail};

verus! {

/// What a search knows of a node: its board, the moves that led to it, its
/// cost, the move that produced it and the index of its parent.
pub struct Mark {
    pub cells: Seq<char>,
    pub moves: nat,
    pub cost: nat,
    pub dir: Option<Direction>,
    pub parent: Option<int>,
}

/// How a search ends: with the moves that lead to the goal, oldest first,
/// or without them.
pub enum Answer {
    Solved(Seq<Direction>),
    OutOfNodes,
    NoSolution,
}

/// What the search knows of the node `n`.
pub open spec fn mark_of(n: Node) -> Mark {
    Mark {
        cells: n.state@,
        moves: n.moves as nat,
        cost: n.cost as nat,
        dir: n.dir,
        parent: match n.parent {
            Some(p) => Some(p as int),
            None => None,
        },
    }
}

/// What the search knows of every node.
pub open spec fn marks_of(nodes: Seq<Node>) -> Seq<Mark> {
    Seq::new(nodes.len(), |i: int| mark_of(nodes[i]))
}

/// The mark of the first board of a search.
pub open spec fn first_mark(start: Seq<char>, h: Heuristic) -> Mark {
    Mark { cells: start, moves: 0, cost: estimate(h, start), dir: None, parent: None }
}

/// The mark of the node that the move `d` makes of node `id`.
pub open spec fn child_mark(marks: Seq<Mark>, id: int, h: Heuristic, d: Direction) -> Mark {
    let cells = step(marks[id].cells, d);
    Mark {
        cells,
        moves: marks[id].moves + 1,
        cost: marks[id].moves + 1 + estimate(h, cells),
        dir: Some(d),
        parent: Some(id),
    }
}

/// Node `a` is looked at no later than node `b`: it is cheaper, or as cheap
/// and not made later.
pub open spec fn sooner(marks: Seq<Mark>, a: int, b: int) -> bool {
    marks[a].cost < marks[b].cost || (marks[a].cost == marks[b].cost && a <= b)
}

/// Node `x` is the one among `waiting` to look at next.
pub open spec fn is_next(marks: Seq<Mark>, waiting: Set<int>, x: int) -> bool {
    waiting.contains(x) && forall|y: int| waiting.contains(y) ==> sooner(marks, x, y)
}

/// The node among `waiting` to look at next: the cheapest, and among the
/// cheapest the one that was made first.
pub open spec fn next_up(marks: Seq<Mark>, waiting: Set<int>) -> int {
    choose|x: int| is_next(marks, waiting, x)
}

/// The moves that lead from the first board to node `i`, oldest first.
pub open spec fn mark_trail(marks: Seq<Mark>, i: int) -> Seq<Direction>
    decreases i,
{
    if 0 <= i < marks.len() {
        match marks[i].parent {
            Some(p) => if 0 <= p < i && marks[i].dir is Some {
                mark_trail(marks, p).push(marks[i].dir->0)
            } else {
                Seq::empty()
            },
            None => Seq::empty(),
        }
    } else {
        Seq::empty()
    }
}

/// There is only one node to look at next.
pub proof fn lemma_next_up(marks: Seq<Mark>, waiting: Set<int>, x: int)
    requires
        is_next(marks, waiting, x),
    ensures
        next_up(marks, waiting) == x,
{
    let y = next_up(marks, waiting);
    assert(is_next(marks, waiting, y));
    assert(sooner(marks, x, y));
    assert(sooner(marks, y, x));
}

/// The trail of a node is the same whether read from the nodes or from their marks.
pub proof fn lemma_mark_trail(nodes: Seq<Node>, i: int)
    ensures
        mark_trail(marks_of(nodes), i) == trail(nodes, i),
    decreases i,
{
    if 0 <= i < nodes.len() {
        match nodes[i].parent {
            Some(p) => {
                if p < i {
                    lemma_mark_trail(nodes, p as int);
                }
            },
            None => {},
        }
    }
}

/// The mark of a child is the child's mark of its parent.
pub proof fn lemma_child_mark(nodes: Seq<Node>, id: usize, kid: Node, h: Heuristic, d: Direction)
    requires
        id < nodes.len(),
        child_of(kid, nodes[id as int], id, h, d),
    ensures
        mark_of(kid) == child_mark(marks_of(nodes), id as int, h, d),
{
}

/// The node that the frontier gives is the one to look at next.
pub proof fn lemma_taken_is_next(
    nodes: Seq<Node>,
    frontier: Seq<usize>,
    waiting: Set<int>,
    id: usize,
)
    requires
        nodes.len() <= usize::MAX,
        frontier.contains(id),
        forall|x: usize| frontier.contains(x) ==> before(nodes, id, x),
        forall|x: usize| frontier.contains(x) ==> x < nodes.len(),
        forall|x: usize| frontier.contains(x) <==> waiting.contains(x as int),
        forall|x: int| waiting.contains(x) ==> 0 <= x < nodes.len(),
    ensures
        next_up(marks_of(nodes), waiting) == id,
{
    let marks = marks_of(nodes);
    assert forall|y: int| waiting.contains(y) implies sooner(marks, id as int, y) by {
        let x = y as usize;
        assert(waiting.contains(x as int));
        assert(frontier.contains(x));
        assert(before(nodes, id, x));
    }
    lemma_next_up(marks, waiting, id as int);
}

} // verus!
