//! The board: nine cells in row-major order, one of them blank, and the moves
//! of the blank.
//!
//! The mathematical model of a board is a `Seq<char>` of length nine. A move
//! is described by [`can_move`] and [`step`]; the executable methods of
//! [`State`] are specified against them.

use vstd::prelude::*;
use crate::text::{chars_of, spells};

verus! {

/// The symbol that stands for the empty cell.
pub const BLANK: char = 'b';

/// The four ways the blank can move.
#[derive(Clone, Copy, PartialEq, Eq, Debug, Structural)]
pub enum Direction {
    Up,
    Left,
    Down,
    Right,
}

/// The goal arrangement: the blank first, then the tiles in order.
pub open spec fn goal_cells() -> Seq<char> {
    seq!['b', '1', '2', '3', '4', '5', '6', '7', '8']
}

/// `i` is the first index at which `cells` holds `c`.
pub open spec fn first_at(cells: Seq<char>, c: char, i: int) -> bool {
    &&& 0 <= i < cells.len()
    &&& cells[i] == c
    &&& forall|j: int| 0 <= j < i ==> cells[j] != c
}

/// The first index at which `cells` holds `c` (meaningful when it holds it at all).
pub open spec fn position(cells: Seq<char>, c: char) -> int {
    choose|i: int| first_at(cells, c, i)
}

/// There is only one first index.
pub proof fn lemma_position(cells: Seq<char>, c: char, i: int)
    requires
        first_at(cells, c, i),
    ensures
        position(cells, c) == i,
{
    let p = position(cells, c);
    assert(first_at(cells, c, p));
    if p < i {
        assert(cells[p] != c);
    } else if i < p {
        assert(cells[i] != c);
    }
}

/// A symbol that occurs has a first index.
pub proof fn lemma_position_exists(cells: Seq<char>, c: char)
    requires
        cells.contains(c),
    ensures
        first_at(cells, c, position(cells, c)),
{
    let k = choose|k: int| 0 <= k < cells.len() && cells[k] == c;
    lemma_first_below(cells, c, k);
}

/// Below any occurrence there is a first one.
proof fn lemma_first_below(cells: Seq<char>, c: char, k: int)
    requires
        0 <= k < cells.len(),
        cells[k] == c,
    ensures
        exists|i: int| first_at(cells, c, i),
        first_at(cells, c, position(cells, c)),
        position(cells, c) <= k,
    decreases k,
{
    if forall|j: int| 0 <= j < k ==> cells[j] != c {
        assert(first_at(cells, c, k));
        lemma_position(cells, c, k);
    } else {
        let j = choose|j: int| 0 <= j < k && cells[j] == c;
        lemma_first_below(cells, c, j);
    }
}

/// The board has exactly one blank cell.
pub open spec fn one_blank(cells: Seq<char>) -> bool {
    &&& cells.contains(BLANK)
    &&& forall|i: int, j: int|
        0 <= i < cells.len() && 0 <= j < cells.len() && cells[i] == BLANK && cells[j] == BLANK
            ==> i == j
}

/// The board is a legal arrangement: nine cells that hold the blank and the
/// tiles `1` to `8`, each exactly once.
pub open spec fn legal(cells: Seq<char>) -> bool {
    &&& cells.len() == 9
    &&& forall|k: int| 0 <= k < 9 ==> cells.contains(#[trigger] goal_cells()[k])
    &&& forall|i: int| 0 <= i < 9 ==> goal_cells().contains(#[trigger] cells[i])
    &&& forall|i: int, j: int| 0 <= i < j < 9 ==> cells[i] != cells[j]
}

/// The blank at index `p` cannot move in direction `d`: it is on that edge.
pub open spec fn at_edge(p: int, d: Direction) -> bool {
    match d {
        Direction::Up => p < 3,
        Direction::Down => p >= 6,
        Direction::Left => p % 3 == 0,
        Direction::Right => p % 3 == 2,
    }
}

/// The index next to `p` in direction `d`.
pub open spec fn neighbour(p: int, d: Direction) -> int {
    match d {
        Direction::Up => p - 3,
        Direction::Down => p + 3,
        Direction::Left => p - 1,
        Direction::Right => p + 1,
    }
}

/// The direction that undoes `d`.
pub open spec fn opposite(d: Direction) -> Direction {
    match d {
        Direction::Up => Direction::Down,
        Direction::Down => Direction::Up,
        Direction::Left => Direction::Right,
        Direction::Right => Direction::Left,
    }
}

/// The blank of `cells` can move in direction `d`.
pub open spec fn can_move(cells: Seq<char>, d: Direction) -> bool {
    !at_edge(position(cells, BLANK), d)
}

/// `cells` with the contents of indices `p` and `q` exchanged.
pub open spec fn swapped(cells: Seq<char>, p: int, q: int) -> Seq<char> {
    cells.update(p, cells[q]).update(q, cells[p])
}

/// The board after the blank was asked to move in direction `d`: the blank
/// and its neighbour exchanged, or the same board when the blank is on that
/// edge.
pub open spec fn step(cells: Seq<char>, d: Direction) -> Seq<char> {
    if can_move(cells, d) {
        swapped(cells, position(cells, BLANK), neighbour(position(cells, BLANK), d))
    } else {
        cells
    }
}

/// How a cell is shown: the blank as a space, a tile as itself.
pub open spec fn shown(c: char) -> char {
    if c == BLANK {
        ' '
    } else {
        c
    }
}

/// One row of the printed block: three cells and a line break.
pub open spec fn block_row(cells: Seq<char>, r: int) -> Seq<char> {
    seq![shown(cells[3 * r]), shown(cells[3 * r + 1]), shown(cells[3 * r + 2]), '\n']
}

/// The printed block: three rows, each ended by a line break.
pub open spec fn block(cells: Seq<char>) -> Seq<char> {
    block_row(cells, 0) + block_row(cells, 1) + block_row(cells, 2)
}

/// The cells that a printed block stands for: line breaks are dropped and a
/// space is read as the blank.
pub open spec fn cells_of_block(text: Seq<char>) -> Seq<char>
    decreases text.len(),
{
    if text.len() == 0 {
        text
    } else if text.last() == '\n' {
        cells_of_block(text.drop_last())
    } else if text.last() == ' ' {
        cells_of_block(text.drop_last()).push(BLANK)
    } else {
        cells_of_block(text.drop_last()).push(text.last())
    }
}

/// Nine cells of which the first are taken from `symbols` and the rest from `old`.
pub open spec fn overwritten(old: Seq<char>, symbols: Seq<char>) -> Seq<char> {
    Seq::new(
        9,
        |i: int|
            if i < symbols.len() {
                symbols[i]
            } else {
                old[i]
            },
    )
}

/// The direction that a word names, if it names one.
pub open spec fn direction_named(word: Seq<char>) -> Option<Direction> {
    if word == "up"@ {
        Some(Direction::Up)
    } else if word == "down"@ {
        Some(Direction::Down)
    } else if word == "left"@ {
        Some(Direction::Left)
    } else if word == "right"@ {
        Some(Direction::Right)
    } else {
        None
    }
}

impl Direction {
    /// The word for this direction.
    pub open spec fn word(self) -> Seq<char> {
        match self {
            Direction::Up => "up"@,
            Direction::Left => "left"@,
            Direction::Down => "down"@,
            Direction::Right => "right"@,
        }
    }

    /// The word for this direction, as it is printed in a list of moves.
    pub fn name(self) -> (r: &'static str)
        ensures
            r@ == self.word(),
    {
        match self {
            Direction::Up => "up",
            Direction::Left => "left",
            Direction::Down => "down",
            Direction::Right => "right",
        }
    }

    /// The direction that `word` names, if it names one.
    pub fn parse(word: &Vec<char>) -> (r: Option<Direction>)
        ensures
            r == direction_named(word@),
    {
        if spells(word, "up") {
            Some(Direction::Up)
        } else if spells(word, "down") {
            Some(Direction::Down)
        } else if spells(word, "left") {
            Some(Direction::Left)
        } else if spells(word, "right") {
            Some(Direction::Right)
        } else {
            None
        }
    }

    /// The direction that undoes this one.
    pub fn reverse(self) -> (r: Direction)
        ensures
            r == opposite(self),
    {
        match self {
            Direction::Up => Direction::Down,
            Direction::Down => Direction::Up,
            Direction::Left => Direction::Right,
            Direction::Right => Direction::Left,
        }
    }
}

/// How a cell is shown: the blank as a space, a tile as itself.
pub fn face(c: char) -> (r: char)
    ensures
        r == shown(c),
{
    if c == BLANK {
        ' '
    } else {
        c
    }
}

/// The state of the puzzle: the nine cells in row-major order and the node
/// budget for searches, where zero means no limit.
#[derive(Clone, Copy, PartialEq, Eq, Debug)]
pub struct State {
    state: [char; 9],
    max_nodes: usize,
}

impl View for State {
    type V = Seq<char>;

    /// The nine cells in row-major order.
    closed spec fn view(&self) -> Seq<char> {
        self.state@
    }
}

impl State {
    /// The node budget for searches; zero means no limit.
    pub closed spec fn node_limit(&self) -> usize {
        self.max_nodes
    }

    /// A board always has nine cells.
    pub proof fn lemma_nine_cells(&self)
        ensures
            self@.len() == 9,
    {
    }

    /// The goal arrangement, with no node limit.
    pub fn new() -> (r: State)
        ensures
            r@ == goal_cells(),
            r.node_limit() == 0,
    {
        State { state: ['b', '1', '2', '3', '4', '5', '6', '7', '8'], max_nodes: 0 }
    }

    /// The node budget for searches; zero means no limit.
    pub fn max_nodes(&self) -> (r: usize)
        ensures
            r == self.node_limit(),
    {
        self.max_nodes
    }

    /// Sets the node budget for searches; zero means no limit.
    pub fn limit_nodes(&mut self, n: usize)
        ensures
            final(self)@ == old(self)@,
            final(self).node_limit() == n,
    {
        self.max_nodes = n;
    }

    /// The nine cells in row-major order.
    pub fn cells(&self) -> (r: Vec<char>)
        ensures
            r@ == self@,
    {
        let mut r: Vec<char> = Vec::new();
        let mut i: usize = 0;
        while i < 9
            invariant
                i <= 9,
                r@ == self@.subrange(0, i as int),
            decreases 9 - i,
        {
            r.push(self.state[i]);
            i += 1;
        }
        r
    }

    /// The cell at index `i`.
    pub fn cell(&self, i: usize) -> (c: char)
        requires
            i < 9,
        ensures
            c == self@[i as int],
    {
        self.state[i]
    }

    /// `true` when both boards hold the same cells; the node budgets are not compared.
    pub fn same_board(&self, other: &State) -> (r: bool)
        ensures
            r == (self@ == other@),
    {
        let mut i: usize = 0;
        while i < 9
            invariant
                i <= 9,
                forall|j: int| 0 <= j < i ==> self@[j] == other@[j],
            decreases 9 - i,
        {
            if self.state[i] != other.state[i] {
                return false;
            }
            i += 1;
        }
        assert(self@ =~= other@);
        true
    }

    /// The first index that holds `c`, if any cell does.
    pub fn locate(&self, c: char) -> (r: Option<usize>)
        ensures
            match r {
                Some(i) => first_at(self@, c, i as int),
                None => !self@.contains(c),
            },
    {
        let mut i: usize = 0;
        while i < 9
            invariant
                i <= 9,
                forall|j: int| 0 <= j < i ==> self@[j] != c,
            decreases 9 - i,
        {
            if self.state[i] == c {
                return Some(i);
            }
            i += 1;
        }
        None
    }

    /// Moves the blank one cell in direction `d` if it is not on that edge.
    ///
    /// Returns whether the blank moved. On the edge nothing changes and the
    /// result is `false`; otherwise the blank and its neighbour in that
    /// direction change places.
    pub fn slide(&mut self, d: Direction) -> (moved: bool)
        requires
            old(self)@.contains(BLANK),
        ensures
            moved == can_move(old(self)@, d),
            moved == !at_edge(position(old(self)@, BLANK), d),
            !moved ==> final(self)@ == old(self)@,
            final(self)@ == step(old(self)@, d),
            final(self).node_limit() == old(self).node_limit(),
    {
        let blank: usize = match self.locate(BLANK) {
            Some(i) => i,
            None => { return false; },
        };
        proof {
            lemma_position(self@, BLANK, blank as int);
        }
        let occupied: usize = match d {
            Direction::Up => if blank >= 3 {
                blank - 3
            } else {
                blank
            },
            Direction::Down => if blank < 6 {
                blank + 3
            } else {
                blank
            },
            Direction::Left => if blank % 3 != 0 {
                blank - 1
            } else {
                blank
            },
            Direction::Right => if (blank + 1) % 3 != 0 {
                blank + 1
            } else {
                blank
            },
        };
        if blank != occupied {
            let tmp: char = self.state[blank];
            self.state[blank] = self.state[occupied];
            self.state[occupied] = tmp;
            assert(self@ =~= step(old(self)@, d));
        }
        blank != occupied
    }

    /// Overwrites the first cells with `symbols`, in order; the cells beyond
    /// them keep what they held. Nothing is checked: the result need not be
    /// a legal board.
    pub fn overwrite(&mut self, symbols: &Vec<char>)
        requires
            symbols.len() <= 9,
        ensures
            final(self)@ == overwritten(old(self)@, symbols@),
            final(self).node_limit() == old(self).node_limit(),
    {
        let mut i: usize = 0;
        while i < symbols.len()
            invariant
                i <= symbols.len() <= 9,
                self.node_limit() == old(self).node_limit(),
                forall|j: int| 0 <= j < i ==> self@[j] == symbols@[j],
                forall|j: int| i <= j < 9 ==> self@[j] == old(self)@[j],
            decreases symbols.len() - i,
        {
            self.state[i] = symbols[i];
            i += 1;
        }
        assert(self@ =~= overwritten(old(self)@, symbols@));
    }

    /// `true` when the board is a legal arrangement: the blank and the
    /// tiles `1` to `8`, each exactly once.
    pub fn is_legal(&self) -> (r: bool)
        ensures
            r == legal(self@),
    {
        let goal: State = State::new();
        let mut k: usize = 0;
        while k < 9
            invariant
                k <= 9,
                goal@ == goal_cells(),
                forall|j: int| 0 <= j < k ==> self@.contains(#[trigger] goal_cells()[j]),
                forall|j: int| 0 <= j < k ==> goal_cells().contains(#[trigger] self@[j]),
            decreases 9 - k,
        {
            if self.locate(goal.state[k]).is_none() {
                return false;
            }
            match goal.locate(self.state[k]) {
                Some(g) => {
                    assert(goal_cells()[g as int] == self@[k as int]);
                },
                None => {
                    return false;
                },
            }
            k += 1;
        }
        let mut i: usize = 0;
        while i < 9
            invariant
                i <= 9,
                forall|a: int, b: int| 0 <= a < b < 9 && a < i ==> self@[a] != self@[b],
            decreases 9 - i,
        {
            let mut j: usize = i + 1;
            while j < 9
                invariant
                    i < j <= 9,
                    forall|a: int, b: int| 0 <= a < b < 9 && a < i ==> self@[a] != self@[b],
                    forall|b: int| i < b < j ==> self@[i as int] != self@[b],
                decreases 9 - j,
            {
                if self.state[i] == self.state[j] {
                    return false;
                }
                j += 1;
            }
            i += 1;
        }
        true
    }

    /// The board as a block of three rows, the blank shown as a space, each
    /// row ended by a line break.
    pub fn render(&self) -> (r: String)
        ensures
            r@ == block(self@),
    {
        let mut out: String = String::new();
        let mut row: usize = 0;
        while row < 3
            invariant
                row <= 3,
                row == 0 ==> out@ == Seq::<char>::empty(),
                row == 1 ==> out@ == block_row(self@, 0),
                row == 2 ==> out@ == block_row(self@, 0) + block_row(self@, 1),
                row == 3 ==> out@ == block(self@),
            decreases 3 - row,
        {
            let ghost before = out@;
            out.push(face(self.state[3 * row]));
            out.push(face(self.state[3 * row + 1]));
            out.push(face(self.state[3 * row + 2]));
            out.push('\n');
            assert(out@ =~= before + block_row(self@, row as int));
            row += 1;
        }
        out
    }

    /// Reads a printed block back: line breaks are dropped, a space is the
    /// blank, every other character is a cell. Gives a board when exactly
    /// nine cells were read.
    pub fn from_block(text: &str) -> (r: Option<State>)
        ensures
            match r {
                Some(s) => s@ == cells_of_block(text@) && s.node_limit() == 0,
                None => cells_of_block(text@).len() != 9,
            },
    {
        let v: Vec<char> = chars_of(text);
        let mut cells: Vec<char> = Vec::new();
        let mut i: usize = 0;
        while i < v.len()
            invariant
                i <= v.len(),
                cells@ == cells_of_block(v@.subrange(0, i as int)),
            decreases v.len() - i,
        {
            proof {
                let next = v@.subrange(0, i + 1);
                assert(next.drop_last() == v@.subrange(0, i as int));
                assert(next.last() == v@[i as int]);
            }
            let c: char = v[i];
            if c == ' ' {
                cells.push(BLANK);
            } else if c != '\n' {
                cells.push(c);
            }
            i += 1;
        }
        assert(v@.subrange(0, v.len() as int) == v@);
        if cells.len() != 9 {
            return None;
        }
        let mut s: State = State::new();
        s.overwrite(&cells);
        assert(s@ =~= cells@);
        Some(s)
    }
}

/// A legal board has exactly one blank.
pub proof fn lemma_legal_one_blank(cells: Seq<char>)
    requires
        legal(cells),
    ensures
        one_blank(cells),
        cells.contains(BLANK),
{
    assert(goal_cells()[0] == BLANK);
}

/// A move never leaves the board: the blank's neighbour in a direction in
/// which it can move is one of the nine cells.
pub proof fn lemma_neighbour_on_board(cells: Seq<char>, d: Direction)
    requires
        cells.len() == 9,
        cells.contains(BLANK),
        can_move(cells, d),
    ensures
        0 <= position(cells, BLANK) < 9,
        0 <= neighbour(position(cells, BLANK), d) < 9,
        neighbour(position(cells, BLANK), d) != position(cells, BLANK),
{
    lemma_position_exists(cells, BLANK);
}

/// After a move of a board with one blank, the blank is where its neighbour was.
pub proof fn lemma_blank_after_step(cells: Seq<char>, d: Direction)
    requires
        cells.len() == 9,
        one_blank(cells),
        can_move(cells, d),
    ensures
        one_blank(step(cells, d)),
        position(step(cells, d), BLANK) == neighbour(position(cells, BLANK), d),
        step(cells, d).len() == 9,
{
    lemma_neighbour_on_board(cells, d);
    lemma_position_exists(cells, BLANK);
    let p = position(cells, BLANK);
    let q = neighbour(p, d);
    let next = step(cells, d);
    assert(cells[q] != BLANK);
    assert(next[q] == BLANK);
    assert forall|j: int| 0 <= j < 9 && j != q implies next[j] != BLANK by {
        if j == p {
        } else {
            assert(next[j] == cells[j]);
        }
    }
    assert(first_at(next, BLANK, q));
    lemma_position(next, BLANK, q);
}

/// A move followed by the opposite move restores the board: up and down undo
/// each other, and so do left and right. This holds of every move that was
/// made; on the edge the first move changes nothing.
pub proof fn lemma_move_back(cells: Seq<char>, d: Direction)
    requires
        cells.len() == 9,
        one_blank(cells),
        can_move(cells, d),
    ensures
        can_move(step(cells, d), opposite(d)),
        step(step(cells, d), opposite(d)) == cells,
{
    lemma_neighbour_on_board(cells, d);
    lemma_blank_after_step(cells, d);
    assert(step(step(cells, d), opposite(d)) =~= cells);
}

/// A move gives `false` and leaves the board as it was exactly when the
/// blank is on the edge that the direction points to.
pub proof fn lemma_edge_is_no_move(cells: Seq<char>, d: Direction)
    requires
        cells.len() == 9,
        cells.contains(BLANK),
    ensures
        (!can_move(cells, d) && step(cells, d) == cells) <==> at_edge(position(cells, BLANK), d),
        one_blank(cells) && can_move(cells, d) ==> step(cells, d) != cells,
{
    if one_blank(cells) && can_move(cells, d) {
        lemma_blank_after_step(cells, d);
        lemma_neighbour_on_board(cells, d);
        lemma_position_exists(cells, BLANK);
        let q = neighbour(position(cells, BLANK), d);
        assert(step(cells, d)[q] == BLANK);
        assert(cells[q] != BLANK);
    }
}

/// A move of a legal board gives a legal board.
pub proof fn lemma_step_legal(cells: Seq<char>, d: Direction)
    requires
        legal(cells),
    ensures
        legal(step(cells, d)),
{
    if can_move(cells, d) {
        lemma_legal_one_blank(cells);
        lemma_neighbour_on_board(cells, d);
        let p = position(cells, BLANK);
        let q = neighbour(p, d);
        let next = step(cells, d);
        assert forall|k: int| 0 <= k < 9 implies next.contains(#[trigger] goal_cells()[k]) by {
            let c = goal_cells()[k];
            assert(cells.contains(c));
            let i = choose|i: int| 0 <= i < cells.len() && cells[i] == c;
            if i == p {
                assert(next[q] == c);
            } else if i == q {
                assert(next[p] == c);
            } else {
                assert(next[i] == c);
            }
        }
        assert forall|i: int| 0 <= i < 9 implies goal_cells().contains(#[trigger] next[i]) by {
            if i == p {
                assert(next[i] == cells[q]);
            } else if i == q {
                assert(next[i] == cells[p]);
            } else {
                assert(next[i] == cells[i]);
            }
        }
        assert forall|i: int, j: int| 0 <= i < j < 9 implies next[i] != next[j] by {
            let a = if i == p { q } else if i == q { p } else { i };
            let b = if j == p { q } else if j == q { p } else { j };
            assert(next[i] == cells[a]);
            assert(next[j] == cells[b]);
            if a < b {
                assert(cells[a] != cells[b]);
            } else {
                assert(cells[b] != cells[a]);
            }
        }
    }
}

/// The goal arrangement is legal.
pub proof fn lemma_goal_legal()
    ensures
        legal(goal_cells()),
{
    let g = goal_cells();
    assert forall|k: int| 0 <= k < 9 implies g.contains(#[trigger] g[k]) by {}
}

/// Appending a character to a printed block appends the cell it stands for.
proof fn lemma_cells_of_block_push(text: Seq<char>, c: char)
    ensures
        cells_of_block(text.push(c)) == if c == '\n' {
            cells_of_block(text)
        } else if c == ' ' {
            cells_of_block(text).push(BLANK)
        } else {
            cells_of_block(text).push(c)
        },
{
    assert(text.push(c).drop_last() == text);
}

/// Reading one more printed row adds the three cells of that row.
proof fn lemma_cells_of_block_row(text: Seq<char>, cells: Seq<char>, r: int)
    requires
        cells.len() == 9,
        0 <= r < 3,
        forall|i: int| 0 <= i < 9 ==> cells[i] != ' ' && cells[i] != '\n',
    ensures
        cells_of_block(text + block_row(cells, r)) == cells_of_block(text) + cells.subrange(
            3 * r,
            3 * r + 3,
        ),
{
    let a = shown(cells[3 * r]);
    let b = shown(cells[3 * r + 1]);
    let c = shown(cells[3 * r + 2]);
    let t1 = text.push(a);
    let t2 = t1.push(b);
    let t3 = t2.push(c);
    let t4 = t3.push('\n');
    assert(t4 =~= text + block_row(cells, r));
    lemma_cells_of_block_push(text, a);
    lemma_cells_of_block_push(t1, b);
    lemma_cells_of_block_push(t2, c);
    lemma_cells_of_block_push(t3, '\n');
    assert(cells_of_block(t4) =~= cells_of_block(text) + cells.subrange(3 * r, 3 * r + 3));
}

/// Printing a board and reading the block back gives the board again, for
/// every board none of whose cells is a space or a line break.
pub proof fn lemma_block_round_trip(cells: Seq<char>)
    requires
        cells.len() == 9,
        forall|i: int| 0 <= i < 9 ==> cells[i] != ' ' && cells[i] != '\n',
    ensures
        cells_of_block(block(cells)) == cells,
{
    let e = Seq::<char>::empty();
    let r0 = block_row(cells, 0);
    let r1 = block_row(cells, 1);
    let r2 = block_row(cells, 2);
    assert(e + r0 =~= r0);
    lemma_cells_of_block_row(e, cells, 0);
    lemma_cells_of_block_row(r0, cells, 1);
    lemma_cells_of_block_row(r0 + r1, cells, 2);
    assert(cells_of_block(e) =~= e);
    assert(cells =~= e + cells.subrange(0, 3) + cells.subrange(3, 6) + cells.subrange(6, 9));
}

/// Printing a legal board and reading the block back gives the board again.
pub proof fn lemma_legal_round_trip(cells: Seq<char>)
    requires
        legal(cells),
    ensures
        cells_of_block(block(cells)) == cells,
{
    assert forall|i: int| 0 <= i < 9 implies cells[i] != ' ' && cells[i] != '\n' by {
        assert(goal_cells().contains(cells[i]));
    }
    lemma_block_round_trip(cells);
}

} // verus!
