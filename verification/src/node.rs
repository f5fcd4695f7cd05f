//! Search nodes.
//!
//! A node is a board together with the number of moves that led to it, its
//! total cost, the move that produced it and the index of the node it was
//! produced from. The nodes of one search live in one vector, and a node
//! names its parent by its index there, so that the path to a node is read
//! by walking the indices back to the root.

use vstd::prelude::*;
use crate::board::{
    BLANK, Direction, State, can_move, goal_cells, legal, position, step, lemma_legal_one_blank,
    lemma_position_exists, lemma_step_legal,
};
use crate::heuristic::{Heuristic, estimate, score};
use crate::walk::{connects, lemma_walk_push};

verus! {

/// A board met during a search, with the bookkeeping of the search.
#[derive(Clone, Copy, Debug)]
pub struct Node {
    /// The moves made so far plus the estimate of the moves still needed;
    /// wide enough for the sum of any count of moves and any estimate.
    pub cost: u128,
    /// The number of moves that lead from the first board to this one.
    pub moves: usize,
    /// The move that produced this board; `None` for the first board.
    pub dir: Option<Direction>,
    /// The board.
    pub state: State,
    /// The index of the node this one was produced from; `None` for the first board.
    pub parent: Option<usize>,
}

/// The directions in which a search tries to move the blank, in this order.
pub open spec fn tried() -> Seq<Direction> {
    seq![Direction::Up, Direction::Left, Direction::Down, Direction::Right]
}

/// The directions among the first `n` tried in which the blank of `cells` can move, in order.
pub open spec fn open_moves_upto(cells: Seq<char>, n: int) -> Seq<Direction>
    decreases n,
{
    if n <= 0 {
        Seq::empty()
    } else if can_move(cells, tried()[n - 1]) {
        open_moves_upto(cells, n - 1).push(tried()[n - 1])
    } else {
        open_moves_upto(cells, n - 1)
    }
}

/// The directions in which the blank of `cells` can move, in the order up,
/// left, down, right.
pub open spec fn open_moves(cells: Seq<char>) -> Seq<Direction> {
    open_moves_upto(cells, 4)
}

/// `kid` is what the move `d` makes of `parent`, which has index `id`.
pub open spec fn child_of(kid: Node, parent: Node, id: usize, h: Heuristic, d: Direction) -> bool {
    &&& can_move(parent.state@, d)
    &&& kid.state@ == step(parent.state@, d)
    &&& kid.state.node_limit() == parent.state.node_limit()
    &&& kid.moves == parent.moves + 1
    &&& kid.cost == kid.moves + estimate(h, kid.state@)
    &&& kid.dir == Some(d)
    &&& kid.parent == Some(id)
}

/// The node at index `i` fits its parent: it is a legal board, one move away
/// from its parent's, one move further from the first board `start`, and
/// its cost is its moves plus its estimate.
pub open spec fn node_ok(nodes: Seq<Node>, i: int, start: Seq<char>, h: Heuristic) -> bool {
    let n = nodes[i];
    &&& legal(n.state@)
    &&& n.cost == n.moves + estimate(h, n.state@)
    &&& n.moves <= i
    &&& match n.parent {
        None => n.dir is None && n.moves == 0 && n.state@ == start,
        Some(p) => {
            &&& p < i
            &&& n.dir is Some
            &&& can_move(nodes[p as int].state@, n.dir->0)
            &&& n.state@ == step(nodes[p as int].state@, n.dir->0)
            &&& n.moves == nodes[p as int].moves + 1
        },
    }
}

/// Every node fits its parent.
pub open spec fn nodes_ok(nodes: Seq<Node>, start: Seq<char>, h: Heuristic) -> bool {
    forall|i: int| 0 <= i < nodes.len() ==> node_ok(nodes, i, start, h)
}

/// The moves that lead from the first board to the node at index `i`, oldest first.
pub open spec fn trail(nodes: Seq<Node>, i: int) -> Seq<Direction>
    decreases i,
{
    if 0 <= i < nodes.len() {
        match nodes[i].parent {
            Some(p) => if p < i && nodes[i].dir is Some {
                trail(nodes, p as int).push(nodes[i].dir->0)
            } else {
                Seq::empty()
            },
            None => Seq::empty(),
        }
    } else {
        Seq::empty()
    }
}

/// The trail of a node is a path from the first board to the node's board,
/// and it is as long as the node's count of moves.
pub proof fn lemma_trail(nodes: Seq<Node>, i: int, start: Seq<char>, h: Heuristic)
    requires
        nodes_ok(nodes, start, h),
        0 <= i < nodes.len(),
    ensures
        connects(start, trail(nodes, i), nodes[i].state@),
        trail(nodes, i).len() == nodes[i].moves,
    decreases i,
{
    assert(node_ok(nodes, i, start, h));
    match nodes[i].parent {
        Some(p) => {
            lemma_trail(nodes, p as int, start, h);
            lemma_walk_push(start, trail(nodes, p as int), nodes[i].dir->0);
        },
        None => {},
    }
}

/// Nodes that were there keep their place and their trail when a node is added.
pub proof fn lemma_push_keeps(nodes: Seq<Node>, n: Node, start: Seq<char>, h: Heuristic)
    requires
        nodes_ok(nodes, start, h),
        node_ok(nodes.push(n), nodes.len() as int, start, h),
    ensures
        nodes_ok(nodes.push(n), start, h),
{
    let more = nodes.push(n);
    assert forall|i: int| 0 <= i < more.len() implies node_ok(more, i, start, h) by {
        if i < nodes.len() {
            assert(node_ok(nodes, i, start, h));
            assert(more[i] == nodes[i]);
        }
    }
}

impl Node {
    /// The node of the first board of a search.
    pub fn root(state: State, h: Heuristic) -> (r: Node)
        requires
            legal(state@),
        ensures
            r.state == state,
            r.moves == 0,
            r.cost == estimate(h, state@),
            r.dir is None,
            r.parent is None,
    {
        let est: u32 = score(h, &state);
        Node { cost: est as u128, moves: 0, dir: None, state, parent: None }
    }

    /// The nodes one move away from this one, which has index `id`: one for
    /// each direction in which the blank can move, in the order up, left,
    /// down, right.
    pub fn expand(&self, id: usize, h: Heuristic) -> (kids: Vec<Node>)
        requires
            legal(self.state@),
            self.moves < usize::MAX,
        ensures
            kids@.len() == open_moves(self.state@).len(),
            forall|i: int|
                0 <= i < kids@.len() ==> child_of(
                    #[trigger] kids@[i],
                    *self,
                    id,
                    h,
                    open_moves(self.state@)[i],
                ),
    {
        let order: [Direction; 4] = [
            Direction::Up,
            Direction::Left,
            Direction::Down,
            Direction::Right,
        ];
        assert(order@ =~= tried());
        let mut kids: Vec<Node> = Vec::new();
        let mut i: usize = 0;
        proof {
            lemma_legal_one_blank(self.state@);
        }
        while i < 4
            invariant
                i <= 4,
                order@ == tried(),
                legal(self.state@),
                self.state@.contains(BLANK),
                self.moves < usize::MAX,
                kids@.len() == open_moves_upto(self.state@, i as int).len(),
                forall|j: int|
                    0 <= j < kids@.len() ==> child_of(
                        #[trigger] kids@[j],
                        *self,
                        id,
                        h,
                        open_moves_upto(self.state@, i as int)[j],
                    ),
            decreases 4 - i,
        {
            let d: Direction = order[i];
            let mut next: State = self.state;
            if next.slide(d) {
                proof {
                    lemma_step_legal(self.state@, d);
                }
                let est: u32 = score(h, &next);
                let moves: usize = self.moves + 1;
                let kid = Node {
                    cost: moves as u128 + est as u128,
                    moves,
                    dir: Some(d),
                    state: next,
                    parent: Some(id),
                };
                kids.push(kid);
            }
            i += 1;
        }
        kids
    }
}

/// Every parent comes before its child, and every child records its move.
pub open spec fn linked(nodes: Seq<Node>) -> bool {
    forall|i: int|
        0 <= i < nodes.len() ==> match (#[trigger] nodes[i]).parent {
            Some(p) => p < i && nodes[i].dir is Some,
            None => true,
        }
}

/// The moves that lead from the first board to the node at index `id`,
/// oldest first: the order in which a solver would make them.
pub fn path_to(nodes: &Vec<Node>, id: usize) -> (path: Vec<Direction>)
    requires
        linked(nodes@),
        id < nodes.len(),
    ensures
        path@ == trail(nodes@, id as int),
{
    let mut back: Vec<Direction> = Vec::new();
    let mut cur: usize = id;
    loop
        invariant
            linked(nodes@),
            cur < nodes.len(),
            trail(nodes@, id as int) == trail(nodes@, cur as int) + back@.reverse(),
        ensures
            trail(nodes@, id as int) == back@.reverse(),
        decreases cur,
    {
        match nodes[cur].parent {
            None => {
                assert(trail(nodes@, cur as int) == Seq::<Direction>::empty());
                assert(Seq::<Direction>::empty() + back@.reverse() == back@.reverse());
                break ;
            },
            Some(p) => {
                let d: Direction = match nodes[cur].dir {
                    Some(d) => d,
                    None => Direction::Up,
                };
                assert(trail(nodes@, cur as int) == trail(nodes@, p as int).push(d));
                assert(trail(nodes@, p as int).push(d) + back@.reverse() == trail(nodes@, p as int)
                    + back@.push(d).reverse());
                back.push(d);
                cur = p;
            },
        }
    }
    let mut path: Vec<Direction> = Vec::new();
    let mut i: usize = back.len();
    while i > 0
        invariant
            i <= back.len(),
            path@ == back@.reverse().subrange(0, back.len() - i),
        decreases i,
    {
        i -= 1;
        path.push(back[i]);
    }
    assert(back@.reverse().subrange(0, back.len() as int) == back@.reverse());
    path
}

/// Nodes that fit their parents are linked.
pub proof fn lemma_ok_linked(nodes: Seq<Node>, start: Seq<char>, h: Heuristic)
    requires
        nodes_ok(nodes, start, h),
    ensures
        linked(nodes),
{
    assert forall|i: int| 0 <= i < nodes.len() implies match (#[trigger] nodes[i]).parent {
        Some(p) => p < i && nodes[i].dir is Some,
        None => true,
    } by {
        assert(node_ok(nodes, i, start, h));
    }
}

/// The digit that stands for a symbol in the number of a board: its index
/// in the goal arrangement.
pub open spec fn digit(c: char) -> int {
    position(goal_cells(), c)
}

/// The number spelled in base nine by the digits of the first `n` cells.
pub open spec fn code_upto(cells: Seq<char>, n: int) -> int
    decreases n,
{
    if n <= 0 {
        0
    } else {
        code_upto(cells, n - 1) * 9 + digit(cells[n - 1])
    }
}

/// The number of a board: its nine cells read as digits in base nine. Two
/// legal boards have the same number only if they are the same board.
pub open spec fn code(cells: Seq<char>) -> int {
    code_upto(cells, 9)
}

/// Nine to the power `n`.
pub open spec fn nine_to(n: int) -> int
    decreases n,
{
    if n <= 0 {
        1
    } else {
        9 * nine_to(n - 1)
    }
}

/// The powers of nine up to the ninth.
proof fn lemma_nine_to(n: int)
    requires
        0 <= n <= 9,
    ensures
        1 <= nine_to(n) <= 387420489,
        n < 9 ==> nine_to(n) <= 43046721,
{
    reveal_with_fuel(nine_to, 11);
}

/// Every cell of a legal board has a digit below nine, which tells the cell.
proof fn lemma_digit(cells: Seq<char>, i: int)
    requires
        legal(cells),
        0 <= i < 9,
    ensures
        0 <= digit(cells[i]) < 9,
        goal_cells()[digit(cells[i])] == cells[i],
{
    assert(goal_cells().contains(cells[i]));
    lemma_position_exists(goal_cells(), cells[i]);
}

/// The number spelled by `n` cells of a legal board is below nine to the `n`.
proof fn lemma_code_bound(cells: Seq<char>, n: int)
    requires
        legal(cells),
        0 <= n <= 9,
    ensures
        0 <= code_upto(cells, n) < nine_to(n),
    decreases n,
{
    if n > 0 {
        lemma_code_bound(cells, n - 1);
        lemma_digit(cells, n - 1);
    }
}

/// Two legal boards whose first `n` cells spell the same number agree in
/// those cells.
proof fn lemma_code_prefix(a: Seq<char>, b: Seq<char>, n: int)
    requires
        legal(a),
        legal(b),
        0 <= n <= 9,
        code_upto(a, n) == code_upto(b, n),
    ensures
        forall|i: int| 0 <= i < n ==> a[i] == b[i],
    decreases n,
{
    if n > 0 {
        lemma_digit(a, n - 1);
        lemma_digit(b, n - 1);
        lemma_code_bound(a, n - 1);
        lemma_code_bound(b, n - 1);
        let x = code_upto(a, n - 1);
        let y = code_upto(b, n - 1);
        assert(x == y);
        lemma_code_prefix(a, b, n - 1);
    }
}

/// Two legal boards with the same number are the same board.
pub proof fn lemma_code_tells(a: Seq<char>, b: Seq<char>)
    requires
        legal(a),
        legal(b),
        code(a) == code(b),
    ensures
        a == b,
{
    lemma_code_prefix(a, b, 9);
    assert(a =~= b);
}

/// The number of a legal board fits in 32 bits.
pub proof fn lemma_code_small(cells: Seq<char>)
    requires
        legal(cells),
    ensures
        0 <= code(cells) < 387420489,
{
    lemma_code_bound(cells, 9);
    lemma_nine_to(9);
}

impl State {
    /// The number of the board, by which a search recognises a board it has
    /// met before.
    pub fn key(&self) -> (k: u64)
        requires
            legal(self@),
        ensures
            k == code(self@),
    {
        let goal: State = State::new();
        let mut acc: u64 = 0;
        let mut i: usize = 0;
        while i < 9
            invariant
                i <= 9,
                legal(self@),
                goal@ == goal_cells(),
                acc == code_upto(self@, i as int),
            decreases 9 - i,
        {
            proof {
                lemma_code_bound(self@, i as int);
                lemma_nine_to(i as int);
                lemma_digit(self@, i as int);
            }
            let d: usize = match goal.locate(self.cell(i)) {
                Some(d) => d,
                None => 0,
            };
            proof {
                crate::board::lemma_position(goal_cells(), self@[i as int], d as int);
            }
            acc = acc * 9 + d as u64;
            i += 1;
        }
        acc
    }
}

} // verus!
