//! Random legal moves.

use vstd::prelude::*;
use crate::board::{BLANK, Direction, State, can_move, step, lemma_position_exists, position, neighbour, lemma_neighbour_on_board};
use crate::search::lemma_some_move;
use crate::trusted::choose_direction;
use crate::walk::{connects, lemma_walk_push};

verus! {

/// A move keeps the blank on the board.
pub proof fn lemma_step_keeps_blank(cells: Seq<char>, d: Direction)
    requires
        cells.len() == 9,
        cells.contains(BLANK),
    ensures
        step(cells, d).contains(BLANK),
        step(cells, d).len() == 9,
{
    if can_move(cells, d) {
        lemma_neighbour_on_board(cells, d);
        lemma_position_exists(cells, BLANK);
        let q = neighbour(position(cells, BLANK), d);
        assert(step(cells, d)[q] == BLANK);
    }
}

/// The first index of `pool` that holds `d`.
fn index_in(pool: &Vec<Direction>, d: Direction) -> (k: usize)
    requires
        pool@.contains(d),
    ensures
        k < pool@.len(),
        pool@[k as int] == d,
{
    let mut k: usize = 0;
    while k < pool.len()
        invariant
            k <= pool.len(),
            pool@.contains(d),
            forall|j: int| 0 <= j < k ==> pool@[j] != d,
        decreases pool.len() - k,
    {
        if pool[k] == d {
            return k;
        }
        k += 1;
    }
    proof {
        let j = choose|j: int| 0 <= j < pool@.len() && pool@[j] == d;
        assert(pool@[j] != d);
    }
    0
}

impl State {
    /// Makes one random move: a direction is drawn from the four, and drawn
    /// again from those not tried yet for as long as the blank cannot move
    /// in the direction drawn. Returns the move that was made.
    pub fn random_move(&mut self, rng: &mut rand::StdRng) -> (d: Direction)
        requires
            old(self)@.contains(BLANK),
        ensures
            can_move(old(self)@, d),
            final(self)@ == step(old(self)@, d),
            final(self).node_limit() == old(self).node_limit(),
    {
        let mut pool: Vec<Direction> = Vec::new();
        pool.push(Direction::Up);
        pool.push(Direction::Down);
        pool.push(Direction::Left);
        pool.push(Direction::Right);
        assert(pool@[0] == Direction::Up && pool@[1] == Direction::Down && pool@[2]
            == Direction::Left && pool@[3] == Direction::Right);
        assert forall|e: Direction| pool@.contains(e) by {
            match e {
                Direction::Up => assert(pool@[0] == e),
                Direction::Down => assert(pool@[1] == e),
                Direction::Left => assert(pool@[2] == e),
                Direction::Right => assert(pool@[3] == e),
            }
        }
        loop
            invariant
                self@ == old(self)@,
                self.node_limit() == old(self).node_limit(),
                self@.contains(BLANK),
                forall|e: Direction| !pool@.contains(e) ==> !can_move(self@, e),
            decreases pool@.len(),
        {
            let drawn: Option<Direction> = choose_direction(rng, &pool);
            match drawn {
                Some(d) => {
                    let k: usize = index_in(&pool, d);
                    let ghost before = pool@;
                    pool.remove(k);
                    if self.slide(d) {
                        return d;
                    }
                    proof {
                        assert forall|e: Direction| !pool@.contains(e) implies !can_move(
                            self@,
                            e,
                        ) by {
                            if e != d && before.contains(e) {
                                let j = choose|j: int| 0 <= j < before.len() && before[j] == e;
                                let at = if j < k {
                                    j
                                } else {
                                    j - 1
                                };
                                assert(pool@[at] == e);
                            }
                        }
                    }
                },
                None => {
                    proof {
                        self.lemma_nine_cells();
                        lemma_some_move(self@);
                        assert(!pool@.contains(Direction::Up));
                        assert(!pool@.contains(Direction::Down));
                    }
                    return Direction::Up;
                },
            }
        }
    }

    /// Makes `n` random moves, each of them one that the blank can make.
    pub fn scramble(&mut self, n: u32, rng: &mut rand::StdRng)
        requires
            old(self)@.contains(BLANK),
        ensures
            exists|path: Seq<Direction>| path.len() == n && #[trigger] connects(old(self)@, path, final(self)@),
            final(self).node_limit() == old(self).node_limit(),
    {
        let mut left: u32 = n;
        let ghost mut path: Seq<Direction> = Seq::empty();
        while left > 0
            invariant
                left <= n,
                path.len() == n - left,
                connects(old(self)@, path, self@),
                self@.contains(BLANK),
                self.node_limit() == old(self).node_limit(),
            decreases left,
        {
            let ghost here = self@;
            proof {
                self.lemma_nine_cells();
            }
            let d: Direction = self.random_move(rng);
            proof {
                lemma_walk_push(old(self)@, path, d);
                lemma_step_keeps_blank(here, d);
                path = path.push(d);
            }
            left -= 1;
        }
    }
}

} // verus!
