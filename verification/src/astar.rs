//! Best-first search by total cost: moves made plus estimated moves left.
//!
//! The search keeps the nodes that wait to be expanded (the frontier) and the
//! boards it has settled (the explored set). It always expands the cheapest
//! waiting node. Because both estimates change by at most one with every
//! move, the first node that is taken out with a given board has reached
//! that board by a shortest path; this is what the facts below record, and
//! what makes the path that is reported a shortest one.

use vstd::prelude::*;
use crate::board::{
    Direction, State, can_move, goal_cells, legal, step, lemma_goal_legal, lemma_legal_one_blank,
};
use crate::explored::Explored;
use crate::frontier::{Frontier, before, lemma_frontier_grows};
use crate::heuristic::{Heuristic, estimate, lemma_estimate_step};
use crate::hunt::{Hunt, Progress, admit_all, astar_answer, hunt_after, hunt_start, hunt_step};
use crate::model::{
    Answer, mark_of, mark_trail, marks_of, next_up, lemma_child_mark, lemma_mark_trail,
    lemma_taken_is_next,
};
use crate::node::{
    Node, child_of, code, node_ok, nodes_ok, open_moves, path_to, trail, lemma_code_small,
    lemma_ok_linked, lemma_trail,
};
use crate::search::{
    Outcome, answer_of, budget_spent, fits, ids_ok, spent, lemma_child_ok, lemma_key_tells,
    lemma_open_moves_complete, lemma_some_move, lemma_step_changes_code,
};
use crate::walk::{
    connects, reachable, shortest, valid_walk, walk, way_back, lemma_walk_legal, lemma_walk_push,
    lemma_way_back,
};

verus! {

/// The board `cells` is settled.
pub open spec fn settled(explored: Map<u64, usize>, cells: Seq<char>) -> bool {
    explored.contains_key(code(cells) as u64)
}

/// A node with the board `cells`, reached in at most `bound` moves, waits in the frontier.
pub open spec fn waiting(
    nodes: Seq<Node>,
    frontier: Seq<usize>,
    cells: Seq<char>,
    bound: int,
) -> bool {
    exists|id: usize| #[trigger] frontier.contains(id) && fits(nodes[id as int], cells, bound)
}

/// The board `cells` is settled, or waits with at most `bound` moves.
pub open spec fn known(
    nodes: Seq<Node>,
    frontier: Seq<usize>,
    explored: Map<u64, usize>,
    cells: Seq<char>,
    bound: int,
) -> bool {
    settled(explored, cells) || waiting(nodes, frontier, cells, bound)
}

/// The board one move `d` away from the node `e` is known, with at most one
/// move more than `e`.
pub open spec fn covered(
    nodes: Seq<Node>,
    frontier: Seq<usize>,
    explored: Map<u64, usize>,
    e: Node,
    d: Direction,
) -> bool {
    can_move(e.state@, d) ==> known(nodes, frontier, explored, step(e.state@, d), e.moves + 1)
}

/// No path from `start` to the board of `n` is shorter than the one `n` took.
pub open spec fn best(start: Seq<char>, n: Node) -> bool {
    forall|p: Seq<Direction>| #[trigger] connects(start, p, n.state@) ==> n.moves <= p.len()
}

/// Every settled board is kept under its own number, with a node that holds it.
pub open spec fn explored_ok(nodes: Seq<Node>, explored: Map<u64, usize>) -> bool {
    forall|k: u64| #[trigger]
        explored.contains_key(k) ==> explored[k] < nodes.len() && code(
            nodes[explored[k] as int].state@,
        ) == k
}

/// What holds of a search at every moment: the nodes fit their parents, the
/// goal is not settled, the first board is known, and every settled board
/// was reached by a shortest path.
pub open spec fn base(
    nodes: Seq<Node>,
    frontier: Seq<usize>,
    explored: Map<u64, usize>,
    start: Seq<char>,
    h: Heuristic,
) -> bool {
    &&& legal(start)
    &&& nodes_ok(nodes, start, h)
    &&& ids_ok(nodes, frontier)
    &&& explored_ok(nodes, explored)
    &&& !settled(explored, goal_cells())
    &&& known(nodes, frontier, explored, start, 0)
    &&& forall|k: u64| #[trigger]
        explored.contains_key(k) ==> best(start, nodes[explored[k] as int])
}

/// Every board one move away from a settled board is known, except perhaps
/// around the board whose number is `skip`.
pub open spec fn closed_but(
    nodes: Seq<Node>,
    frontier: Seq<usize>,
    explored: Map<u64, usize>,
    skip: Option<u64>,
) -> bool {
    forall|k: u64, d: Direction|
        explored.contains_key(k) && skip != Some(k) ==> #[trigger] covered(
            nodes,
            frontier,
            explored,
            nodes[explored[k] as int],
            d,
        )
}

/// The first `done` open moves of the node `n` lead to known boards.
pub open spec fn covered_upto(
    nodes: Seq<Node>,
    frontier: Seq<usize>,
    explored: Map<u64, usize>,
    n: Node,
    done: int,
) -> bool {
    forall|i: int|
        0 <= i < done ==> covered(nodes, frontier, explored, n, #[trigger] open_moves(n.state@)[i])
}

/// A settled board is held by the node that is kept for it.
proof fn lemma_settled_node(
    nodes: Seq<Node>,
    explored: Map<u64, usize>,
    start: Seq<char>,
    h: Heuristic,
    cells: Seq<char>,
)
    requires
        nodes_ok(nodes, start, h),
        explored_ok(nodes, explored),
        legal(cells),
        settled(explored, cells),
    ensures
        explored[code(cells) as u64] < nodes.len(),
        nodes[explored[code(cells) as u64] as int].state@ == cells,
{
    let k = code(cells) as u64;
    assert(explored.contains_key(k));
    let e = explored[k] as int;
    assert(node_ok(nodes, e, start, h));
    lemma_code_small(nodes[e].state@);
    lemma_key_tells(nodes[e].state@, cells);
}

/// A known board stays known when the node `id` leaves the frontier,
/// provided the board of that node is settled by then.
proof fn lemma_known_after_pop(
    nodes: Seq<Node>,
    frontier: Seq<usize>,
    id: usize,
    rest: Seq<usize>,
    explored: Map<u64, usize>,
    after: Map<u64, usize>,
    cells: Seq<char>,
    bound: int,
)
    requires
        known(nodes, frontier, explored, cells, bound),
        forall|x: usize| frontier.contains(x) && x != id ==> rest.contains(x),
        forall|key: u64| explored.contains_key(key) ==> after.contains_key(key),
        settled(after, nodes[id as int].state@),
    ensures
        known(nodes, rest, after, cells, bound),
{
    if settled(explored, cells) {
    } else {
        let x = choose|x: usize| #[trigger] frontier.contains(x) && fits(nodes[x as int], cells, bound);
        if x != id {
            assert(rest.contains(x));
        }
    }
}

/// A known board stays known when a node is added to the nodes and to the frontier.
proof fn lemma_known_after_push(
    nodes: Seq<Node>,
    frontier: Seq<usize>,
    wider: Seq<usize>,
    explored: Map<u64, usize>,
    kid: Node,
    cells: Seq<char>,
    bound: int,
)
    requires
        ids_ok(nodes, frontier),
        forall|x: usize| frontier.contains(x) ==> wider.contains(x),
        known(nodes, frontier, explored, cells, bound),
    ensures
        known(nodes.push(kid), wider, explored, cells, bound),
{
    if settled(explored, cells) {
    } else {
        let x = choose|x: usize| #[trigger] frontier.contains(x) && fits(nodes[x as int], cells, bound);
        let j = choose|j: int| 0 <= j < frontier.len() && frontier[j] == x;
        assert(frontier[j] < nodes.len());
        assert(wider.contains(x));
        assert(nodes.push(kid)[x as int] == nodes[x as int]);
    }
}

/// Whatever path leads from the first board to a board that is not settled,
/// some node waits in the frontier that costs no more than the length of
/// that path plus the estimate of the board.
proof fn lemma_waiting_on_path(
    nodes: Seq<Node>,
    frontier: Seq<usize>,
    explored: Map<u64, usize>,
    start: Seq<char>,
    h: Heuristic,
    path: Seq<Direction>,
)
    requires
        base(nodes, frontier, explored, start, h),
        closed_but(nodes, frontier, explored, None),
        valid_walk(start, path),
        !settled(explored, walk(start, path)),
    ensures
        exists|id: usize| #[trigger]
            frontier.contains(id) && nodes[id as int].cost <= path.len() + estimate(
                h,
                walk(start, path),
            ),
    decreases path.len(),
{
    let end = walk(start, path);
    if path.len() == 0 {
        let x = choose|x: usize| #[trigger] frontier.contains(x) && fits(nodes[x as int], start, 0);
        lemma_in_frontier(nodes, frontier, x);
        assert(node_ok(nodes, x as int, start, h));
    } else {
        let shorter = path.drop_last();
        let d = path.last();
        let prev = walk(start, shorter);
        lemma_walk_legal(start, shorter);
        lemma_estimate_step(h, prev, d);
        if settled(explored, prev) {
            lemma_settled_node(nodes, explored, start, h, prev);
            let k = code(prev) as u64;
            let e = nodes[explored[k] as int];
            assert(best(start, e));
            assert(connects(start, shorter, e.state@));
            assert(covered(nodes, frontier, explored, e, d));
            let x = choose|x: usize| #[trigger]
                frontier.contains(x) && fits(nodes[x as int], end, e.moves + 1);
            lemma_in_frontier(nodes, frontier, x);
            assert(node_ok(nodes, x as int, start, h));
        } else {
            lemma_waiting_on_path(nodes, frontier, explored, start, h, shorter);
            let x = choose|x: usize| #[trigger]
                frontier.contains(x) && nodes[x as int].cost <= shorter.len() + estimate(h, prev);
            assert(nodes[x as int].cost <= path.len() + estimate(h, end));
        }
    }
}

/// An index that the frontier holds is the index of a node.
proof fn lemma_in_frontier(nodes: Seq<Node>, frontier: Seq<usize>, x: usize)
    requires
        ids_ok(nodes, frontier),
        frontier.contains(x),
    ensures
        x < nodes.len(),
{
    let j = choose|j: int| 0 <= j < frontier.len() && frontier[j] == x;
    assert(frontier[j] < nodes.len());
}

/// The cheapest waiting node, if its board is not settled, has reached its
/// board by a shortest path.
proof fn lemma_cheapest_is_best(
    nodes: Seq<Node>,
    frontier: Seq<usize>,
    explored: Map<u64, usize>,
    start: Seq<char>,
    h: Heuristic,
    id: usize,
)
    requires
        base(nodes, frontier, explored, start, h),
        closed_but(nodes, frontier, explored, None),
        frontier.contains(id),
        forall|x: usize| frontier.contains(x) ==> before(nodes, id, x),
        !settled(explored, nodes[id as int].state@),
    ensures
        best(start, nodes[id as int]),
{
    let n = nodes[id as int];
    lemma_in_frontier(nodes, frontier, id);
    assert(node_ok(nodes, id as int, start, h));
    assert forall|p: Seq<Direction>| #[trigger] connects(start, p, n.state@) implies n.moves
        <= p.len() by {
        lemma_waiting_on_path(nodes, frontier, explored, start, h, p);
        let x = choose|x: usize| #[trigger]
            frontier.contains(x) && nodes[x as int].cost <= p.len() + estimate(
                h,
                walk(start, p),
            );
        assert(before(nodes, id, x));
    }
}

/// With nothing left in the frontier, the goal cannot be reached.
proof fn lemma_empty_frontier(
    nodes: Seq<Node>,
    frontier: Seq<usize>,
    explored: Map<u64, usize>,
    start: Seq<char>,
    h: Heuristic,
)
    requires
        base(nodes, frontier, explored, start, h),
        closed_but(nodes, frontier, explored, None),
        frontier.len() == 0,
    ensures
        !reachable(start, goal_cells()),
{
    if reachable(start, goal_cells()) {
        let p = choose|p: Seq<Direction>| connects(start, p, goal_cells());
        lemma_waiting_on_path(nodes, frontier, explored, start, h, p);
        let x = choose|x: usize| #[trigger]
            frontier.contains(x) && nodes[x as int].cost <= p.len() + estimate(
                h,
                walk(start, p),
            );
        let j = choose|j: int| 0 <= j < frontier.len() && frontier[j] == x;
    }
}

/// The facts of a search survive taking the cheapest node `id` out of the
/// frontier and settling its board, except that the boards around a board
/// that was settled just now are still to be looked at.
proof fn lemma_settle(
    nodes: Seq<Node>,
    frontier: Seq<usize>,
    explored: Map<u64, usize>,
    start: Seq<char>,
    h: Heuristic,
    id: usize,
    rest: Seq<usize>,
    after: Map<u64, usize>,
)
    requires
        base(nodes, frontier, explored, start, h),
        closed_but(nodes, frontier, explored, None),
        frontier.contains(id),
        forall|x: usize| frontier.contains(x) ==> before(nodes, id, x),
        forall|x: usize| frontier.contains(x) && x != id ==> rest.contains(x),
        forall|x: usize| rest.contains(x) ==> frontier.contains(x),
        nodes[id as int].state@ != goal_cells(),
        after == if settled(explored, nodes[id as int].state@) {
            explored
        } else {
            explored.insert(code(nodes[id as int].state@) as u64, id)
        },
    ensures
        base(nodes, rest, after, start, h),
        closed_but(
            nodes,
            rest,
            after,
            if settled(explored, nodes[id as int].state@) {
                None
            } else {
                Some(code(nodes[id as int].state@) as u64)
            },
        ),
        settled(after, nodes[id as int].state@),
{
    let n = nodes[id as int];
    let key = code(n.state@) as u64;
    let fresh = !settled(explored, n.state@);
    let skip = if fresh {
        Some(key)
    } else {
        None
    };
    lemma_in_frontier(nodes, frontier, id);
    assert(node_ok(nodes, id as int, start, h));
    lemma_code_small(n.state@);
    lemma_goal_legal();
    assert(ids_ok(nodes, rest)) by {
        assert forall|j: int| 0 <= j < rest.len() implies (#[trigger] rest[j]) < nodes.len() by {
            assert(rest.contains(rest[j]));
            lemma_in_frontier(nodes, frontier, rest[j]);
        }
    }
    assert(explored_ok(nodes, after));
    assert(!settled(after, goal_cells())) by {
        if settled(after, goal_cells()) {
            lemma_key_tells(n.state@, goal_cells());
        }
    }
    assert(forall|key: u64| explored.contains_key(key) ==> after.contains_key(key));
    lemma_known_after_pop(nodes, frontier, id, rest, explored, after, start, 0);
    if fresh {
        lemma_cheapest_is_best(nodes, frontier, explored, start, h, id);
    }
    assert forall|q: u64| #[trigger] after.contains_key(q) implies best(
        start,
        nodes[after[q] as int],
    ) by {
        if q == key && fresh {
        } else {
            assert(explored.contains_key(q));
        }
    }
    assert forall|q: u64, d: Direction| after.contains_key(q) && skip != Some(q) implies #[trigger] covered(
        nodes,
        rest,
        after,
        nodes[after[q] as int],
        d,
    ) by {
        assert(explored.contains_key(q));
        let e = nodes[explored[q] as int];
        assert(after[q] == explored[q]);
        assert(covered(nodes, frontier, explored, e, d));
        if can_move(e.state@, d) {
            lemma_known_after_pop(
                nodes,
                frontier,
                id,
                rest,
                explored,
                after,
                step(e.state@, d),
                e.moves + 1,
            );
        }
    }
}

/// The facts of a search survive admitting a child of the node `id` to the frontier.
proof fn lemma_admit(
    nodes: Seq<Node>,
    frontier: Seq<usize>,
    wider: Seq<usize>,
    explored: Map<u64, usize>,
    start: Seq<char>,
    h: Heuristic,
    skip: Option<u64>,
    id: usize,
    kid: Node,
    at: usize,
    done: int,
)
    requires
        base(nodes, frontier, explored, start, h),
        closed_but(nodes, frontier, explored, skip),
        at == nodes.len(),
        id < nodes.len(),
        0 <= done < open_moves(nodes[id as int].state@).len(),
        child_of(kid, nodes[id as int], id, h, open_moves(nodes[id as int].state@)[done]),
        covered_upto(nodes, frontier, explored, nodes[id as int], done),
        ids_ok(nodes.push(kid), wider),
        forall|x: usize| wider.contains(x) <==> frontier.contains(x) || x == at,
    ensures
        base(nodes.push(kid), wider, explored, start, h),
        closed_but(nodes.push(kid), wider, explored, skip),
        covered_upto(nodes.push(kid), wider, explored, nodes[id as int], done + 1),
{
    let n = nodes[id as int];
    let d = open_moves(n.state@)[done];
    let more = nodes.push(kid);
    lemma_child_ok(nodes, id, kid, d, start, h);
    assert(explored_ok(more, explored)) by {
        assert forall|k: u64| #[trigger] explored.contains_key(k) implies explored[k] < more.len()
            && code(more[explored[k] as int].state@) == k by {
            assert(more[explored[k] as int] == nodes[explored[k] as int]);
        }
    }
    lemma_known_after_push(nodes, frontier, wider, explored, kid, start, 0);
    assert forall|k: u64| #[trigger] explored.contains_key(k) implies best(
        start,
        more[explored[k] as int],
    ) by {
        assert(more[explored[k] as int] == nodes[explored[k] as int]);
    }
    assert forall|k: u64, e: Direction| explored.contains_key(k) && skip != Some(k) implies #[trigger] covered(
        more,
        wider,
        explored,
        more[explored[k] as int],
        e,
    ) by {
        let x = nodes[explored[k] as int];
        assert(more[explored[k] as int] == x);
        assert(covered(nodes, frontier, explored, x, e));
        if can_move(x.state@, e) {
            lemma_known_after_push(
                nodes,
                frontier,
                wider,
                explored,
                kid,
                step(x.state@, e),
                x.moves + 1,
            );
        }
    }
    assert forall|i: int| 0 <= i < done + 1 implies covered(
        more,
        wider,
        explored,
        n,
        #[trigger] open_moves(n.state@)[i],
    ) by {
        let e = open_moves(n.state@)[i];
        if i < done {
            assert(covered(nodes, frontier, explored, n, e));
            if can_move(n.state@, e) {
                lemma_known_after_push(
                    nodes,
                    frontier,
                    wider,
                    explored,
                    kid,
                    step(n.state@, e),
                    n.moves + 1,
                );
            }
        } else {
            assert(wider.contains(at));
            assert(more[at as int] == kid);
            assert(fits(more[at as int], step(n.state@, e), n.moves + 1));
        }
    }
}

/// A child whose board is settled costs no less than the node kept for that
/// board, and the facts of the search need nothing more for it.
proof fn lemma_dominated(
    nodes: Seq<Node>,
    frontier: Seq<usize>,
    explored: Map<u64, usize>,
    start: Seq<char>,
    h: Heuristic,
    id: usize,
    kid: Node,
    done: int,
)
    requires
        base(nodes, frontier, explored, start, h),
        id < nodes.len(),
        0 <= done < open_moves(nodes[id as int].state@).len(),
        child_of(kid, nodes[id as int], id, h, open_moves(nodes[id as int].state@)[done]),
        covered_upto(nodes, frontier, explored, nodes[id as int], done),
        settled(explored, kid.state@),
    ensures
        covered_upto(nodes, frontier, explored, nodes[id as int], done + 1),
        explored[code(kid.state@) as u64] < nodes.len(),
        nodes[explored[code(kid.state@) as u64] as int].cost <= kid.cost,
{
    let n = nodes[id as int];
    let d = open_moves(n.state@)[done];
    assert(node_ok(nodes, id as int, start, h));
    crate::board::lemma_step_legal(n.state@, d);
    lemma_settled_node(nodes, explored, start, h, kid.state@);
    let e = nodes[explored[code(kid.state@) as u64] as int];
    assert(best(start, e));
    lemma_trail(nodes, id as int, start, h);
    let p = trail(nodes, id as int).push(d);
    lemma_walk_push(start, trail(nodes, id as int), d);
    assert(connects(start, p, e.state@));
    assert(node_ok(nodes, explored[code(kid.state@) as u64] as int, start, h));
}

/// Once every open move of the board settled last has been looked at, every
/// board one move away from a settled board is known again.
proof fn lemma_all_covered(
    nodes: Seq<Node>,
    frontier: Seq<usize>,
    explored: Map<u64, usize>,
    start: Seq<char>,
    h: Heuristic,
    skip: Option<u64>,
    id: usize,
)
    requires
        base(nodes, frontier, explored, start, h),
        closed_but(nodes, frontier, explored, skip),
        id < nodes.len(),
        covered_upto(
            nodes,
            frontier,
            explored,
            nodes[id as int],
            open_moves(nodes[id as int].state@).len() as int,
        ),
        skip is Some ==> skip == Some(code(nodes[id as int].state@) as u64) && explored[skip->0]
            == id,
    ensures
        closed_but(nodes, frontier, explored, None),
{
    let n = nodes[id as int];
    assert forall|k: u64, d: Direction| explored.contains_key(k) implies #[trigger] covered(
        nodes,
        frontier,
        explored,
        nodes[explored[k] as int],
        d,
    ) by {
        if skip == Some(k) {
            if can_move(n.state@, d) {
                lemma_open_moves_complete(n.state@, d);
                let i = choose|i: int|
                    0 <= i < open_moves(n.state@).len() && #[trigger] open_moves(n.state@)[i] == d;
                assert(covered(nodes, frontier, explored, n, open_moves(n.state@)[i]));
            }
        }
    }
}

/// The nodes, the frontier and the explored set of a running search hold
/// what the state `hunt` says.
pub open spec fn mirrors(
    nodes: Seq<Node>,
    frontier: Seq<usize>,
    explored: Map<u64, usize>,
    hunt: Hunt,
) -> bool {
    &&& nodes.len() <= usize::MAX
    &&& hunt.marks == marks_of(nodes)
    &&& forall|x: usize| #[trigger] frontier.contains(x) <==> hunt.waiting.contains(x as int)
    &&& forall|x: int| #[trigger] hunt.waiting.contains(x) ==> 0 <= x < nodes.len()
    &&& forall|cells: Seq<char>| #[trigger] hunt.settled.contains(cells) ==> legal(cells)
    &&& forall|cells: Seq<char>|
        legal(cells) ==> (hunt.settled.contains(cells) <==> #[trigger] settled(explored, cells))
}

/// The node taken from the frontier is the one that the round looks at.
proof fn lemma_mirror_pop(
    nodes: Seq<Node>,
    frontier: Seq<usize>,
    explored: Map<u64, usize>,
    hunt: Hunt,
    id: usize,
)
    requires
        mirrors(nodes, frontier, explored, hunt),
        ids_ok(nodes, frontier),
        frontier.contains(id),
        forall|x: usize| frontier.contains(x) ==> before(nodes, id, x),
    ensures
        exists|x: int| hunt.waiting.contains(x),
        next_up(hunt.marks, hunt.waiting) == id,
        hunt.marks[id as int].cells == nodes[id as int].state@,
        mark_trail(hunt.marks, id as int) == trail(nodes, id as int),
{
    assert forall|x: usize| frontier.contains(x) implies x < nodes.len() by {
        lemma_in_frontier(nodes, frontier, x);
    }
    lemma_taken_is_next(nodes, frontier, hunt.waiting, id);
    lemma_mark_trail(nodes, id as int);
    assert(hunt.waiting.contains(id as int));
}

/// With an empty frontier nothing waits.
proof fn lemma_mirror_empty(
    nodes: Seq<Node>,
    frontier: Seq<usize>,
    explored: Map<u64, usize>,
    hunt: Hunt,
)
    requires
        mirrors(nodes, frontier, explored, hunt),
        frontier.len() == 0,
    ensures
        forall|x: int| !hunt.waiting.contains(x),
{
    assert forall|x: int| !hunt.waiting.contains(x) by {
        if hunt.waiting.contains(x) {
            let y = x as usize;
            assert(frontier.contains(y));
            let j = choose|j: int| 0 <= j < frontier.len() && frontier[j] == y;
        }
    }
}

/// Settling the board of the node taken from the frontier is the first part
/// of a round.
proof fn lemma_mirror_settle(
    nodes: Seq<Node>,
    frontier: Seq<usize>,
    rest: Seq<usize>,
    explored: Map<u64, usize>,
    after: Map<u64, usize>,
    hunt: Hunt,
    id: usize,
)
    requires
        mirrors(nodes, frontier, explored, hunt),
        ids_ok(nodes, frontier),
        frontier.contains(id),
        !rest.contains(id),
        forall|x: usize| frontier.contains(x) ==> before(nodes, id, x),
        forall|x: usize| frontier.contains(x) && x != id ==> rest.contains(x),
        forall|x: usize| rest.contains(x) ==> frontier.contains(x),
        legal(nodes[id as int].state@),
        after == if settled(explored, nodes[id as int].state@) {
            explored
        } else {
            explored.insert(code(nodes[id as int].state@) as u64, id)
        },
    ensures
        next_up(hunt.marks, hunt.waiting) == id,
        hunt.marks[id as int].cells == nodes[id as int].state@,
        mirrors(
            nodes,
            rest,
            after,
            Hunt {
                marks: hunt.marks,
                waiting: hunt.waiting.remove(id as int),
                settled: hunt.settled.insert(nodes[id as int].state@),
            },
        ),
{
    let cells = nodes[id as int].state@;
    let next = Hunt {
        marks: hunt.marks,
        waiting: hunt.waiting.remove(id as int),
        settled: hunt.settled.insert(cells),
    };
    assert forall|x: usize| frontier.contains(x) implies x < nodes.len() by {
        lemma_in_frontier(nodes, frontier, x);
    }
    lemma_taken_is_next(nodes, frontier, hunt.waiting, id);
    assert forall|x: usize| #[trigger] rest.contains(x) <==> next.waiting.contains(x as int) by {
        if rest.contains(x) {
            assert(frontier.contains(x));
        }
        if next.waiting.contains(x as int) {
            assert(frontier.contains(x));
        }
    }
    assert forall|c: Seq<char>| legal(c) implies (next.settled.contains(c) <==> #[trigger] settled(
        after,
        c,
    )) by {
        lemma_code_small(c);
        lemma_code_small(cells);
        if c != cells {
            if code(c) as u64 == code(cells) as u64 {
                lemma_key_tells(c, cells);
            }
            assert(hunt.settled.contains(c) <==> settled(explored, c));
        }
    }
}

/// Dropping a child whose board is settled is the next part of a round.
proof fn lemma_mirror_skip(
    nodes: Seq<Node>,
    explored: Map<u64, usize>,
    hunt: Hunt,
    id: usize,
    kid: Node,
    moves: Seq<Direction>,
    h: Heuristic,
    limit: usize,
    taken: bool,
)
    requires
        hunt.marks == marks_of(nodes),
        forall|cells: Seq<char>|
            legal(cells) ==> (hunt.settled.contains(cells) <==> #[trigger] settled(
                explored,
                cells,
            )),
        id < nodes.len(),
        moves.len() > 0,
        child_of(kid, nodes[id as int], id, h, moves[0]),
        legal(kid.state@),
        taken == settled(explored, kid.state@),
    ensures
        taken ==> admit_all(hunt, id as int, moves, h, limit) == admit_all(
            hunt,
            id as int,
            moves.drop_first(),
            h,
            limit,
        ),
        !taken && spent(limit, nodes.len() as int) ==> admit_all(hunt, id as int, moves, h, limit)
            == Progress::Done(Answer::OutOfNodes),
        !taken && !spent(limit, nodes.len() as int) ==> admit_all(
            hunt,
            id as int,
            moves,
            h,
            limit,
        ) == admit_all(
            Hunt {
                marks: hunt.marks.push(mark_of(kid)),
                waiting: hunt.waiting.insert(nodes.len() as int),
                settled: hunt.settled,
            },
            id as int,
            moves.drop_first(),
            h,
            limit,
        ),
{
    lemma_child_mark(nodes, id, kid, h, moves[0]);
    assert(settled(explored, kid.state@) <==> hunt.settled.contains(kid.state@));
}

/// Admitting a child to the nodes and to the frontier keeps them in step
/// with the state of the search.
proof fn lemma_mirror_admit(
    nodes: Seq<Node>,
    frontier: Seq<usize>,
    wider: Seq<usize>,
    explored: Map<u64, usize>,
    hunt: Hunt,
    kid: Node,
    at: usize,
)
    requires
        mirrors(nodes, frontier, explored, hunt),
        at == nodes.len(),
        nodes.len() < usize::MAX,
        forall|x: usize| wider.contains(x) <==> frontier.contains(x) || x == at,
    ensures
        mirrors(
            nodes.push(kid),
            wider,
            explored,
            Hunt {
                marks: hunt.marks.push(mark_of(kid)),
                waiting: hunt.waiting.insert(nodes.len() as int),
                settled: hunt.settled,
            },
        ),
{
    let more = nodes.push(kid);
    let next = Hunt {
        marks: hunt.marks.push(mark_of(kid)),
        waiting: hunt.waiting.insert(nodes.len() as int),
        settled: hunt.settled,
    };
    assert(next.marks =~= marks_of(more));
    assert forall|x: usize| #[trigger] wider.contains(x) <==> next.waiting.contains(x as int) by {
        if wider.contains(x) && x != at {
            assert(frontier.contains(x));
        }
        if next.waiting.contains(x as int) && x != at {
            assert(frontier.contains(x));
        }
    }
    assert forall|c: Seq<char>| legal(c) implies (next.settled.contains(c) <==> #[trigger] settled(
        explored,
        c,
    )) by {
        assert(hunt.settled.contains(c) <==> settled(explored, c));
    }
}

/// What a best-first search from `start` with the node limit `limit` may
/// answer.
///
/// A path that is reported leads from `start` to the goal by possible moves,
/// and no such path is shorter. "No solution" is only said when no path
/// exists, and "out of nodes" only under a limit. From the goal itself the
/// answer is the empty path; without a limit every board from which the goal
/// can be reached is solved; and a limit of one node is spent by the first
/// board alone, so that only the goal itself is solved under it.
pub open spec fn astar_result(start: Seq<char>, limit: usize, r: Outcome) -> bool {
    &&& match r {
        Outcome::Solved { moves, path } => shortest(start, path@, goal_cells()) && moves
            == path@.len(),
        Outcome::NoSolution => !reachable(start, goal_cells()),
        Outcome::OutOfNodes => limit != 0 && start != goal_cells(),
    }
    &&& start == goal_cells() ==> r is Solved
    &&& limit == 0 && reachable(start, goal_cells()) ==> r is Solved
    &&& limit == 1 && start != goal_cells() ==> r is OutOfNodes
}

/// A board that was reached from the goal by possible moves is solved by a
/// search without a node limit, by a shortest path, which takes no more
/// moves than led to the board.
pub proof fn lemma_solves_what_was_shuffled(start: Seq<char>, path: Seq<Direction>, r: Outcome)
    requires
        connects(goal_cells(), path, start),
        astar_result(start, 0, r),
    ensures
        r is Solved,
        shortest(start, r->path@, goal_cells()),
        r->moves <= path.len(),
{
    lemma_goal_legal();
    lemma_legal_one_blank(goal_cells());
    lemma_way_back(goal_cells(), path);
    assert(connects(start, way_back(path), goal_cells()));
}

impl State {
    /// Searches for a shortest sequence of moves that leads from this board
    /// to the goal, expanding the cheapest waiting node first, where the cost
    /// of a node is its moves so far plus the estimate `h` of its board.
    ///
    /// A node taken from the frontier is reported if it holds the goal.
    /// Otherwise it is expanded and its board settled. A child whose board
    /// is settled is dropped: the node kept for a settled board has reached
    /// it by a shortest path, so that the child is never the cheaper of the
    /// two. Any other child joins the frontier if the node budget allows
    /// one more node.
    ///
    /// The budget counts the nodes that the search keeps: the first board and
    /// every child that joins the frontier. The search gives up as soon as a
    /// child would be one node too many. Without a limit the search ends
    /// only with the goal or with an empty frontier.
    ///
    /// The first clause says what the answer is worth, the second which
    /// answer it is: the one that the rounds of [`hunt_after`] lead to.
    pub fn solve_astar(&self, h: Heuristic) -> (r: Outcome)
        requires
            legal(self@),
        ensures
            astar_result(self@, self.node_limit(), r),
            astar_answer(self@, h, self.node_limit(), answer_of(r)),
    {
        let goal: State = State::new();
        let limit: usize = self.max_nodes();
        let ghost start = self@;
        let mut nodes: Vec<Node> = Vec::new();
        let mut frontier: Frontier = Frontier::new();
        let mut explored: Explored = Explored::new();
        nodes.push(Node::root(*self, h));
        frontier.insert(0, &nodes);
        let ghost mut first: bool = true;
        let ghost mut hunt: Hunt = hunt_start(start, h);
        let ghost mut rounds: nat = 0;
        proof {
            assert(node_ok(nodes@, 0, start, h));
            assert(frontier@.contains(0));
            assert(fits(nodes@[0], start, 0));
            lemma_goal_legal();
            assert(hunt.marks =~= marks_of(nodes@));
            assert(nodes.len() == nodes@.len());
            assert forall|x: usize| #[trigger] frontier@.contains(x) <==> hunt.waiting.contains(
                x as int,
            ) by {}
        }
        loop
            invariant
                legal(start),
                start == self@,
                goal@ == goal_cells(),
                limit == self.node_limit(),
                frontier.wf(nodes@),
                base(nodes@, frontier@, explored@, start, h),
                closed_but(nodes@, frontier@, explored@, None),
                mirrors(nodes@, frontier@, explored@, hunt),
                hunt_after(start, h, limit, rounds) == Progress::Running(hunt),
                first ==> nodes@.len() == 1 && (forall|x: usize| frontier@.contains(x) ==> x == 0)
                    && explored@ =~= Map::<u64, usize>::empty() && nodes@[0].state@ == start,
                limit == 1 ==> first,
                !first ==> start != goal_cells(),
            decreases 2 * (usize::MAX - nodes@.len()) + frontier@.len(),
        {
            let ghost waited = frontier@;
            let ghost settled_before = explored@;
            let ghost made = nodes@.len();
            let id: usize = match frontier.take_cheapest(&nodes) {
                Some(id) => id,
                None => {
                    proof {
                        lemma_empty_frontier(nodes@, waited, settled_before, start, h);
                        lemma_mirror_empty(nodes@, waited, settled_before, hunt);
                        assert(hunt_after(start, h, limit, rounds + 1) == Progress::Done(
                            Answer::NoSolution,
                        ));
                    }
                    return Outcome::NoSolution;
                },
            };
            proof {
                lemma_in_frontier(nodes@, waited, id);
                lemma_mirror_pop(nodes@, waited, settled_before, hunt, id);
            }
            let node: Node = nodes[id];
            proof {
                assert(node_ok(nodes@, id as int, start, h));
                assert(nodes.len() == nodes@.len());
            }
            if node.state.same_board(&goal) {
                proof {
                    lemma_cheapest_is_best(nodes@, waited, settled_before, start, h, id);
                    lemma_trail(nodes@, id as int, start, h);
                    lemma_ok_linked(nodes@, start, h);
                }
                let path: Vec<Direction> = path_to(&nodes, id);
                proof {
                    assert(hunt_after(start, h, limit, rounds + 1) == Progress::Done(
                        Answer::Solved(path@),
                    ));
                }
                return Outcome::Solved { moves: node.moves, path };
            }
            let kids: Vec<Node> = node.expand(id, h);
            let key: u64 = node.state.key();
            let fresh: bool = explored.get(key).is_none();
            if fresh {
                explored.insert(key, id);
            }
            let ghost skip: Option<u64> = if fresh {
                Some(key)
            } else {
                None
            };
            let ghost moves = open_moves(node.state@);
            let ghost target = hunt_step(hunt, h, limit);
            proof {
                lemma_code_small(node.state@);
                lemma_settle(nodes@, waited, settled_before, start, h, id, frontier@, explored@);
                lemma_mirror_settle(
                    nodes@,
                    waited,
                    frontier@,
                    settled_before,
                    explored@,
                    hunt,
                    id,
                );
                lemma_legal_one_blank(node.state@);
                lemma_some_move(node.state@);
                hunt = Hunt {
                    marks: hunt.marks,
                    waiting: hunt.waiting.remove(id as int),
                    settled: hunt.settled.insert(node.state@),
                };
                assert(moves.subrange(0, moves.len() as int) == moves);
                assert(hunt_after(start, h, limit, rounds + 1) == target);
            }
            let mut i: usize = 0;
            while i < kids.len()
                invariant
                    i <= kids.len(),
                    kids@.len() == open_moves(node.state@).len(),
                    kids@.len() >= 1,
                    forall|j: int|
                        0 <= j < kids@.len() ==> child_of(
                            #[trigger] kids@[j],
                            node,
                            id,
                            h,
                            open_moves(node.state@)[j],
                        ),
                    legal(start),
                    start == self@,
                    legal(node.state@),
                    start != goal_cells(),
                    limit == self.node_limit(),
                    key == code(node.state@) as u64,
                    id < nodes@.len(),
                    nodes@[id as int] == node,
                    frontier.wf(nodes@),
                    base(nodes@, frontier@, explored@, start, h),
                    closed_but(nodes@, frontier@, explored@, skip),
                    covered_upto(nodes@, frontier@, explored@, node, i as int),
                    moves == open_moves(node.state@),
                    mirrors(nodes@, frontier@, explored@, hunt),
                    admit_all(
                        hunt,
                        id as int,
                        moves.subrange(i as int, moves.len() as int),
                        h,
                        limit,
                    ) == target,
                    hunt_after(start, h, limit, rounds + 1) == target,
                    skip is Some ==> skip == Some(key) && explored@[key] == id,
                    nodes@.len() >= made,
                    nodes@.len() - made == frontier@.len() - (waited.len() - 1),
                    limit == 1 ==> i == 0 && nodes@.len() == 1 && (forall|q: u64|
                        explored@.contains_key(q) ==> q == key),
                decreases kids.len() - i,
            {
                let kid: Node = kids[i];
                let ghost d = open_moves(node.state@)[i as int];
                proof {
                    assert(child_of(kids@[i as int], node, id, h, d));
                    lemma_step_changes_code(node.state@, d);
                    lemma_code_small(kid.state@);
                    lemma_code_small(node.state@);
                }
                let kid_key: u64 = kid.state.key();
                let ghost left = moves.subrange(i as int, moves.len() as int);
                proof {
                    assert(left[0] == d);
                    assert(left.drop_first() == moves.subrange(i + 1, moves.len() as int));
                    assert(nodes.len() == nodes@.len());
                    lemma_mirror_skip(
                        nodes@,
                        explored@,
                        hunt,
                        id,
                        kid,
                        left,
                        h,
                        limit,
                        settled(explored@, kid.state@),
                    );
                }
                match explored.get(kid_key) {
                    Some(kept) => {
                        proof {
                            lemma_dominated(nodes@, frontier@, explored@, start, h, id, kid, i as int);
                        }
                        if kid.cost < nodes[kept].cost {
                            // The kept node is never the dearer one; were it so,
                            // the child would take its place.
                            let at: usize = nodes.len();
                            let ghost nodes_before = nodes@;
                            nodes.push(kid);
                            explored.insert(kid_key, at);
                            proof {
                                lemma_frontier_grows(frontier@, nodes_before, nodes@);
                            }
                        }
                    },
                    None => {
                        if budget_spent(limit, nodes.len()) {
                            return Outcome::OutOfNodes;
                        }
                        let at: usize = nodes.len();
                        let ghost nodes_before = nodes@;
                        let ghost waiting_before = frontier@;
                        nodes.push(kid);
                        proof {
                            lemma_frontier_grows(waiting_before, nodes_before, nodes@);
                        }
                        frontier.insert(at, &nodes);
                        proof {
                            assert(nodes.len() == nodes@.len());
                            lemma_mirror_admit(
                                nodes_before,
                                waiting_before,
                                frontier@,
                                explored@,
                                hunt,
                                kid,
                                at,
                            );
                            hunt = Hunt {
                                marks: hunt.marks.push(mark_of(kid)),
                                waiting: hunt.waiting.insert(nodes_before.len() as int),
                                settled: hunt.settled,
                            };
                            lemma_admit(
                                nodes_before,
                                waiting_before,
                                frontier@,
                                explored@,
                                start,
                                h,
                                skip,
                                id,
                                kid,
                                at,
                                i as int,
                            );
                        }
                    },
                }
                i += 1;
            }
            proof {
                lemma_all_covered(nodes@, frontier@, explored@, start, h, skip, id);
                first = false;
                rounds = rounds + 1;
                assert(nodes.len() == nodes@.len());
                assert(frontier@.len() - nodes@.len() == waited.len() - 1 - made);
            }
        }
    }
}

} // verus!
