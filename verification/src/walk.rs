//! Sequences of moves: where they lead, and when every move in them is one
//! that the blank can make.

use vstd::prelude::*;
use crate::board::{
    Direction, can_move, legal, one_blank, opposite, step, lemma_blank_after_step, lemma_move_back,
    lemma_step_legal,
};

verus! {

/// The board reached from `cells` by asking for the moves of `path` in order.
pub open spec fn walk(cells: Seq<char>, path: Seq<Direction>) -> Seq<char>
    decreases path.len(),
{
    if path.len() == 0 {
        cells
    } else {
        step(walk(cells, path.drop_last()), path.last())
    }
}

/// Every move of `path` is one that the blank can make when its turn comes.
pub open spec fn valid_walk(cells: Seq<char>, path: Seq<Direction>) -> bool
    decreases path.len(),
{
    path.len() == 0 || (valid_walk(cells, path.drop_last()) && can_move(
        walk(cells, path.drop_last()),
        path.last(),
    ))
}

/// `path` is a sequence of moves, each of them possible, that leads from `from` to `to`.
pub open spec fn connects(from: Seq<char>, path: Seq<Direction>, to: Seq<char>) -> bool {
    valid_walk(from, path) && walk(from, path) == to
}

/// Some sequence of possible moves leads from `from` to `to`.
pub open spec fn reachable(from: Seq<char>, to: Seq<char>) -> bool {
    exists|path: Seq<Direction>| connects(from, path, to)
}

/// `path` leads from `from` to `to` and no sequence of possible moves that
/// does so is shorter.
pub open spec fn shortest(from: Seq<char>, path: Seq<Direction>, to: Seq<char>) -> bool {
    &&& connects(from, path, to)
    &&& forall|other: Seq<Direction>| #[trigger]
        connects(from, other, to) ==> path.len() <= other.len()
}

/// One more move at the end of a path.
pub proof fn lemma_walk_push(cells: Seq<char>, path: Seq<Direction>, d: Direction)
    ensures
        walk(cells, path.push(d)) == step(walk(cells, path), d),
        valid_walk(cells, path.push(d)) == (valid_walk(cells, path) && can_move(
            walk(cells, path),
            d,
        )),
{
    assert(path.push(d).drop_last() == path);
}

/// Moves keep a legal board legal.
pub proof fn lemma_walk_legal(cells: Seq<char>, path: Seq<Direction>)
    requires
        legal(cells),
    ensures
        legal(walk(cells, path)),
    decreases path.len(),
{
    if path.len() > 0 {
        lemma_walk_legal(cells, path.drop_last());
        lemma_step_legal(walk(cells, path.drop_last()), path.last());
    }
}

/// The moves that undo `path`: the opposite of every move, the last move first.
pub open spec fn way_back(path: Seq<Direction>) -> Seq<Direction>
    decreases path.len(),
{
    if path.len() == 0 {
        Seq::empty()
    } else {
        seq![opposite(path.last())] + way_back(path.drop_last())
    }
}

/// One more move at the start of a path.
pub proof fn lemma_walk_first(cells: Seq<char>, d: Direction, path: Seq<Direction>)
    ensures
        walk(cells, seq![d] + path) == walk(step(cells, d), path),
        valid_walk(cells, seq![d] + path) == (can_move(cells, d) && valid_walk(
            step(cells, d),
            path,
        )),
    decreases path.len(),
{
    let whole = seq![d] + path;
    if path.len() == 0 {
        let none = Seq::<Direction>::empty();
        assert(whole == none.push(d));
        lemma_walk_push(cells, none, d);
        assert(walk(cells, none) == cells);
        assert(valid_walk(cells, none));
    } else {
        lemma_walk_first(cells, d, path.drop_last());
        assert(whole == (seq![d] + path.drop_last()).push(path.last()));
        lemma_walk_push(cells, seq![d] + path.drop_last(), path.last());
        assert(path == path.drop_last().push(path.last()));
        lemma_walk_push(step(cells, d), path.drop_last(), path.last());
    }
}

/// Moves keep the one blank of a board.
pub proof fn lemma_walk_one_blank(cells: Seq<char>, path: Seq<Direction>)
    requires
        cells.len() == 9,
        one_blank(cells),
        valid_walk(cells, path),
    ensures
        walk(cells, path).len() == 9,
        one_blank(walk(cells, path)),
    decreases path.len(),
{
    if path.len() > 0 {
        lemma_walk_one_blank(cells, path.drop_last());
        lemma_blank_after_step(walk(cells, path.drop_last()), path.last());
    }
}

/// Every path can be walked back: undoing its moves in reverse order leads
/// from where the path ends to where it began, in as many moves.
pub proof fn lemma_way_back(cells: Seq<char>, path: Seq<Direction>)
    requires
        cells.len() == 9,
        one_blank(cells),
        valid_walk(cells, path),
    ensures
        connects(walk(cells, path), way_back(path), cells),
        way_back(path).len() == path.len(),
    decreases path.len(),
{
    if path.len() > 0 {
        let shorter = path.drop_last();
        let d = path.last();
        let mid = walk(cells, shorter);
        lemma_way_back(cells, shorter);
        lemma_walk_one_blank(cells, shorter);
        lemma_move_back(mid, d);
        lemma_walk_first(step(mid, d), opposite(d), way_back(shorter));
    }
}

} // verus!
