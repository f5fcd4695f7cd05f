//! Beam search: the boards are explored layer by layer, and of every layer
//! only the cheapest few are kept.
//!
//! Within a layer a board is kept once, the first time it is produced.
//! Nothing is remembered from one layer to the next, so a board may come
//! back in a later layer, and the search may go round in circles: it ends
//! with the goal or with the node budget, and finds neither the shortest
//! path nor, always, any path.

use vstd::prelude::*;
use crate::board::{Direction, State, goal_cells, legal, lemma_legal_one_blank};
use crate::frontier::{Frontier, before, lemma_frontier_grows};
use crate::heuristic::Heuristic;
use crate::model::{
    Answer, first_mark, mark_of, marks_of, lemma_child_mark, lemma_mark_trail,
    lemma_taken_is_next,
};
use crate::sweep::{
    Pass, Scan, Sweep, after_grow, beam_answer, beam_width, grow, in_boards, pick, scan,
    sweep_after,
};
use crate::node::{
    Node, child_of, node_ok, nodes_ok, open_moves, path_to, lemma_ok_linked, lemma_trail,
};
use crate::search::{
    Outcome, answer_of, budget_spent, ids_ok, spent, lemma_child_ok, lemma_some_move,
};
use crate::walk::connects;

verus! {

/// `true` when one of the nodes that wait in `layer` holds the board of `state`.
fn in_layer(layer: &Frontier, nodes: &Vec<Node>, state: &State) -> (r: bool)
    requires
        ids_ok(nodes@, layer@),
    ensures
        r == exists|j: int|
            0 <= j < layer@.len() && nodes@[(#[trigger] layer@[j]) as int].state@ == state@,
{
    let mut j: usize = 0;
    while j < layer.len()
        invariant
            j <= layer@.len(),
            ids_ok(nodes@, layer@),
            forall|q: int| 0 <= q < j ==> nodes@[(#[trigger] layer@[q]) as int].state@ != state@,
        decreases layer@.len() - j,
    {
        if nodes[layer.get(j)].state.same_board(state) {
            return true;
        }
        j += 1;
    }
    false
}

/// The indices of a vector as integers.
pub open spec fn ints(ids: Seq<usize>) -> Seq<int> {
    Seq::new(ids.len(), |i: int| ids[i] as int)
}

/// The executable layer `ids` holds the node indices of the set `layer`.
pub open spec fn holds(ids: Seq<usize>, layer: Set<int>, made: nat) -> bool {
    &&& forall|x: usize| #[trigger] ids.contains(x) <==> layer.contains(x as int)
    &&& forall|x: int| #[trigger] layer.contains(x) ==> 0 <= x < made
}

/// Looking for a board among the nodes of the layer.
proof fn lemma_in_boards(
    nodes: Seq<Node>,
    ids: Seq<usize>,
    layer: Set<int>,
    cells: Seq<char>,
    found: bool,
)
    requires
        nodes.len() <= usize::MAX,
        ids_ok(nodes, ids),
        holds(ids, layer, nodes.len()),
        found == exists|j: int|
            0 <= j < ids.len() && nodes[(#[trigger] ids[j]) as int].state@ == cells,
    ensures
        found == in_boards(marks_of(nodes), layer, cells),
{
    let marks = marks_of(nodes);
    if found {
        let j = choose|j: int|
            0 <= j < ids.len() && nodes[(#[trigger] ids[j]) as int].state@ == cells;
        assert(ids.contains(ids[j]));
        assert(layer.contains(ids[j] as int));
        assert(marks[ids[j] as int].cells == cells);
    }
    if in_boards(marks, layer, cells) {
        let x = choose|x: int| #[trigger] layer.contains(x) && marks[x].cells == cells;
        let y = x as usize;
        assert(ids.contains(y));
        let j = choose|j: int| 0 <= j < ids.len() && ids[j] == y;
        assert(nodes[ids[j] as int].state@ == cells);
    }
}

/// Looking at one child is one step of growing the layer.
proof fn lemma_grow_one(
    nodes: Seq<Node>,
    layer: Set<int>,
    id: usize,
    kid: Node,
    moves: Seq<Direction>,
    limit: usize,
)
    requires
        id < nodes.len(),
        moves.len() > 0,
        child_of(kid, nodes[id as int], id, Heuristic::Manhattan, moves[0]),
    ensures
        grow(marks_of(nodes), layer, id as int, moves, limit) == if in_boards(
            marks_of(nodes),
            layer,
            kid.state@,
        ) {
            grow(marks_of(nodes), layer, id as int, moves.drop_first(), limit)
        } else if spent(limit, nodes.len() as int) {
            None
        } else {
            grow(
                marks_of(nodes.push(kid)),
                layer.insert(nodes.len() as int),
                id as int,
                moves.drop_first(),
                limit,
            )
        },
{
    lemma_child_mark(nodes, id, kid, Heuristic::Manhattan, moves[0]);
    assert(marks_of(nodes).push(mark_of(kid)) =~= marks_of(nodes.push(kid)));
}

/// A child that joins the layer joins its set of node indices.
proof fn lemma_holds_more(ids: Seq<usize>, wider: Seq<usize>, layer: Set<int>, at: usize)
    requires
        holds(ids, layer, at as nat),
        at < usize::MAX,
        forall|x: usize| wider.contains(x) <==> ids.contains(x) || x == at,
    ensures
        holds(wider, layer.insert(at as int), (at + 1) as nat),
{
    let more = layer.insert(at as int);
    assert forall|x: usize| #[trigger] wider.contains(x) <==> more.contains(x as int) by {
        if wider.contains(x) && x != at {
            assert(ids.contains(x));
        }
        if more.contains(x as int) && x != at {
            assert(ids.contains(x));
        }
    }
}

/// Taking the best node out of the layer is one step of picking the beam.
proof fn lemma_pick_one(
    nodes: Seq<Node>,
    ids: Seq<usize>,
    rest: Seq<usize>,
    layer: Set<int>,
    id: usize,
    width: nat,
)
    requires
        nodes.len() <= usize::MAX,
        ids_ok(nodes, ids),
        holds(ids, layer, nodes.len()),
        width > 0,
        ids.contains(id),
        !rest.contains(id),
        forall|x: usize| ids.contains(x) ==> before(nodes, id, x),
        forall|x: usize| ids.contains(x) && x != id ==> rest.contains(x),
        forall|x: usize| rest.contains(x) ==> ids.contains(x),
    ensures
        pick(marks_of(nodes), layer, width) == seq![id as int] + pick(
            marks_of(nodes),
            layer.remove(id as int),
            (width - 1) as nat,
        ),
        holds(rest, layer.remove(id as int), nodes.len()),
{
    assert forall|x: usize| ids.contains(x) implies x < nodes.len() by {
        let j = choose|j: int| 0 <= j < ids.len() && ids[j] == x;
        assert(ids[j] < nodes.len());
    }
    lemma_taken_is_next(nodes, ids, layer, id);
    assert(layer.contains(id as int));
    let less = layer.remove(id as int);
    assert forall|x: usize| #[trigger] rest.contains(x) <==> less.contains(x as int) by {
        if rest.contains(x) {
            assert(ids.contains(x));
        }
        if less.contains(x as int) {
            assert(ids.contains(x));
        }
    }
}

/// With an empty layer, or no room left in the beam, nothing more is picked.
proof fn lemma_pick_none(nodes: Seq<Node>, ids: Seq<usize>, layer: Set<int>, width: nat)
    requires
        nodes.len() <= usize::MAX,
        holds(ids, layer, nodes.len()),
        width == 0 || ids.len() == 0,
    ensures
        pick(marks_of(nodes), layer, width) == Seq::<int>::empty(),
{
    if width != 0 {
        assert forall|x: int| !layer.contains(x) by {
            if layer.contains(x) {
                let y = x as usize;
                assert(ids.contains(y));
                let j = choose|j: int| 0 <= j < ids.len() && ids[j] == y;
            }
        }
    }
}

/// What a beam search from `start` with the node limit `limit` may answer.
///
/// A path that is reported leads from `start` to the goal by possible
/// moves; it need not be a shortest one. The search never says "no
/// solution", and says "out of nodes" only under a limit. From the goal
/// itself the answer is the empty path, and a limit of one node is spent by
/// the first board alone.
pub open spec fn beam_result(start: Seq<char>, limit: usize, r: Outcome) -> bool {
    &&& match r {
        Outcome::Solved { moves, path } => connects(start, path@, goal_cells()) && moves
            == path@.len(),
        Outcome::NoSolution => false,
        Outcome::OutOfNodes => limit != 0 && start != goal_cells(),
    }
    &&& start == goal_cells() ==> r is Solved && r->moves == 0 && r->path@.len() == 0
    &&& limit == 1 && start != goal_cells() ==> r is OutOfNodes
}

impl State {
    /// Searches for a sequence of moves that leads from this board to the
    /// goal, keeping at most `width` boards from one layer to the next; a
    /// width of zero counts as one. Boards are ranked by their moves so far
    /// plus their Manhattan estimate.
    ///
    /// In every round each board of the beam is looked at in turn: if it is
    /// the goal, the search ends with the path to it; otherwise its children
    /// are produced. A child joins the next layer unless that layer holds
    /// its board already. The cheapest `width` boards of the layer, those
    /// produced first in case of a tie, are the next beam.
    ///
    /// The budget counts the nodes that the search keeps: the first board and
    /// every child that joins a layer. The search gives up as soon as a
    /// child would be one node too many.
    ///
    /// The first clause says what the answer is worth, the second which
    /// answer it is: the one that the rounds of [`sweep_after`] lead to.
    pub fn solve_beam(&self, width: usize) -> (r: Outcome)
        requires
            legal(self@),
        ensures
            beam_result(self@, self.node_limit(), r),
            beam_answer(self@, width, self.node_limit(), answer_of(r)),
    {
        let room: usize = if width < 1 {
            1
        } else {
            width
        };
        let h: Heuristic = Heuristic::Manhattan;
        let goal: State = State::new();
        let limit: usize = self.max_nodes();
        let ghost start = self@;
        let mut nodes: Vec<Node> = Vec::new();
        let mut beam: Vec<usize> = Vec::new();
        nodes.push(Node::root(*self, h));
        beam.push(0);
        let ghost mut first: bool = true;
        let ghost mut rounds: nat = 0;
        proof {
            assert(node_ok(nodes@, 0, start, h));
            assert(marks_of(nodes@) =~= seq![first_mark(start, h)]);
            assert(ints(beam@) =~= seq![0int]);
        }
        loop
            invariant
                legal(start),
                start == self@,
                goal@ == goal_cells(),
                limit == self.node_limit(),
                room == beam_width(width),
                h == Heuristic::Manhattan,
                nodes_ok(nodes@, start, h),
                ids_ok(nodes@, beam@),
                beam@.len() >= 1,
                nodes@.len() >= 1,
                sweep_after(start, width, limit, rounds) == Pass::Running(
                    Sweep { marks: marks_of(nodes@), beam: ints(beam@) },
                ),
                first ==> nodes@.len() == 1 && beam@ =~= seq![0usize] && nodes@[0].state@ == start
                    && nodes@[0].parent is None,
                limit == 1 ==> first,
                !first ==> start != goal_cells(),
            decreases usize::MAX - nodes@.len(),
        {
            let ghost made = nodes@.len();
            let ghost whole = scan(marks_of(nodes@), ints(beam@), Set::empty(), limit);
            let ghost mut held: Set<int> = Set::empty();
            let mut layer: Frontier = Frontier::new();
            let mut b: usize = 0;
            proof {
                assert(nodes.len() == nodes@.len());
                assert(ints(beam@).subrange(0, beam@.len() as int) == ints(beam@));
                assert forall|x: usize| #[trigger] layer@.contains(x) <==> held.contains(
                    x as int,
                ) by {
                    if layer@.contains(x) {
                        let j = choose|j: int| 0 <= j < layer@.len() && layer@[j] == x;
                    }
                }
            }
            while b < beam.len()
                invariant
                    b <= beam.len(),
                    beam@.len() >= 1,
                    legal(start),
                    start == self@,
                    goal@ == goal_cells(),
                    limit == self.node_limit(),
                    h == Heuristic::Manhattan,
                    nodes_ok(nodes@, start, h),
                    ids_ok(nodes@, beam@),
                    layer.wf(nodes@),
                    made >= 1,
                    nodes@.len() == made + layer@.len(),
                    nodes@.len() <= usize::MAX,
                    holds(layer@, held, nodes@.len()),
                    scan(
                        marks_of(nodes@),
                        ints(beam@).subrange(b as int, beam@.len() as int),
                        held,
                        limit,
                    ) == whole,
                    sweep_after(start, width, limit, rounds + 1) == match whole {
                        Scan::Done(answer) => Pass::Done(answer),
                        Scan::Layer(marks, set) => Pass::Running(
                            Sweep { marks, beam: pick(marks, set, beam_width(width) as nat) },
                        ),
                    },
                    b >= 1 ==> layer@.len() >= 1,
                    b >= 1 || !first ==> start != goal_cells(),
                    first && b == 0 ==> nodes@.len() == 1 && beam@ =~= seq![0usize]
                        && nodes@[0].state@ == start && nodes@[0].parent is None,
                    limit == 1 ==> first && b == 0,
                decreases beam.len() - b,
            {
                let id: usize = beam[b];
                let node: Node = nodes[id];
                let ghost ahead = ints(beam@).subrange(b as int, beam@.len() as int);
                let ghost later = ints(beam@).subrange(b + 1, beam@.len() as int);
                proof {
                    assert(node_ok(nodes@, id as int, start, h));
                    assert(nodes.len() == nodes@.len());
                    assert(ahead[0] == id);
                    assert(ahead.drop_first() == later);
                    lemma_mark_trail(nodes@, id as int);
                }
                if node.state.same_board(&goal) {
                    proof {
                        lemma_trail(nodes@, id as int, start, h);
                        lemma_ok_linked(nodes@, start, h);
                    }
                    let path: Vec<Direction> = path_to(&nodes, id);
                    proof {
                        if start == goal_cells() {
                            assert(path@ =~= Seq::<Direction>::empty());
                            assert(node.moves == 0);
                        }
                        assert(whole == Scan::Done(Answer::Solved(path@)));
                    }
                    return Outcome::Solved { moves: node.moves, path };
                }
                let kids: Vec<Node> = node.expand(id, h);
                let ghost moves = open_moves(node.state@);
                proof {
                    lemma_legal_one_blank(node.state@);
                    lemma_some_move(node.state@);
                    assert(moves.subrange(0, moves.len() as int) == moves);
                }
                let mut i: usize = 0;
                while i < kids.len()
                    invariant
                        i <= kids.len(),
                        moves == open_moves(node.state@),
                        kids@.len() == moves.len(),
                        kids@.len() >= 1,
                        forall|j: int|
                            0 <= j < kids@.len() ==> child_of(
                                #[trigger] kids@[j],
                                node,
                                id,
                                h,
                                moves[j],
                            ),
                        legal(start),
                        start == self@,
                        start != goal_cells(),
                        limit == self.node_limit(),
                        h == Heuristic::Manhattan,
                        id < nodes@.len(),
                        nodes@[id as int] == node,
                        nodes_ok(nodes@, start, h),
                        ids_ok(nodes@, beam@),
                        layer.wf(nodes@),
                        nodes@.len() == made + layer@.len(),
                        nodes@.len() <= usize::MAX,
                        holds(layer@, held, nodes@.len()),
                        after_grow(
                            grow(
                                marks_of(nodes@),
                                held,
                                id as int,
                                moves.subrange(i as int, moves.len() as int),
                                limit,
                            ),
                            later,
                            limit,
                        ) == whole,
                        whole is Done ==> sweep_after(start, width, limit, rounds + 1)
                            == Pass::Done(whole->Done_0),
                        i >= 1 || b >= 1 ==> layer@.len() >= 1,
                        limit == 1 ==> i == 0 && nodes@.len() == 1 && layer@.len() == 0,
                    decreases kids.len() - i,
                {
                    let kid: Node = kids[i];
                    let ghost left = moves.subrange(i as int, moves.len() as int);
                    proof {
                        assert(child_of(kids@[i as int], node, id, h, moves[i as int]));
                        lemma_child_ok(nodes@, id, kid, moves[i as int], start, h);
                        assert(left[0] == moves[i as int]);
                        assert(left.drop_first() == moves.subrange(i + 1, moves.len() as int));
                        lemma_grow_one(nodes@, held, id, kid, left, limit);
                    }
                    let seen: bool = in_layer(&layer, &nodes, &kid.state);
                    proof {
                        lemma_in_boards(nodes@, layer@, held, kid.state@, seen);
                    }
                    if !seen {
                        if budget_spent(limit, nodes.len()) {
                            return Outcome::OutOfNodes;
                        }
                        let at: usize = nodes.len();
                        let ghost nodes_before = nodes@;
                        let ghost layer_before = layer@;
                        nodes.push(kid);
                        proof {
                            lemma_frontier_grows(layer@, nodes_before, nodes@);
                        }
                        layer.insert(at, &nodes);
                        proof {
                            assert(nodes.len() == nodes@.len());
                            lemma_holds_more(layer_before, layer@, held, at);
                            held = held.insert(at as int);
                        }
                    }
                    i += 1;
                }
                b += 1;
            }
            let ghost best = pick(marks_of(nodes@), held, room as nat);
            let mut next: Vec<usize> = Vec::new();
            proof {
                assert(ids_ok(nodes@, next@));
                assert(ints(next@) + best == best);
            }
            while next.len() < room && layer.len() > 0
                invariant
                    layer.wf(nodes@),
                    ids_ok(nodes@, next@),
                    nodes@.len() <= usize::MAX,
                    holds(layer@, held, nodes@.len()),
                    next@.len() <= room,
                    next@.len() + layer@.len() >= 1,
                    best == ints(next@) + pick(marks_of(nodes@), held, (room - next@.len()) as nat),
                decreases layer@.len(),
            {
                let ghost ranked = layer@;
                let ghost taken = next@;
                match layer.take_cheapest(&nodes) {
                    Some(id) => {
                        proof {
                            let j = choose|j: int| 0 <= j < ranked.len() && ranked[j] == id;
                            assert(ranked[j] < nodes@.len());
                            lemma_pick_one(
                                nodes@,
                                ranked,
                                layer@,
                                held,
                                id,
                                (room - taken.len()) as nat,
                            );
                            held = held.remove(id as int);
                        }
                        next.push(id);
                        proof {
                            assert(ints(next@) == ints(taken) + seq![id as int]);
                        }
                    },
                    None => {},
                }
            }
            proof {
                lemma_pick_none(nodes@, layer@, held, (room - next@.len()) as nat);
                assert(ints(next@) + Seq::<int>::empty() == ints(next@));
            }
            beam = next;
            proof {
                first = false;
                rounds = rounds + 1;
                assert(nodes.len() == nodes@.len());
            }
        }
    }
}

} // verus!
