//! The boards that a search has settled, each with the index of its node.
//!
//! A board is recognised by its number, so the set is a hash map from board
//! numbers to node indices.

use std::collections::HashMap;
use vstd::prelude::*;

verus! {

/// The settled boards of a search, by board number.
pub struct Explored {
    map: HashMap<u64, usize>,
}

impl View for Explored {
    type V = Map<u64, usize>;

    /// The map from the number of a settled board to the index of its node.
    closed spec fn view(&self) -> Map<u64, usize> {
        self.map@
    }
}

impl Explored {
    /// No board is settled yet.
    pub fn new() -> (r: Explored)
        ensures
            r@ == Map::<u64, usize>::empty(),
    {
        Explored { map: HashMap::new() }
    }

    /// The node index kept for the board with number `key`, if that board is settled.
    pub fn get(&self, key: u64) -> (r: Option<usize>)
        ensures
            match r {
                Some(id) => self@.contains_key(key) && self@[key] == id,
                None => !self@.contains_key(key),
            },
    {
        broadcast use vstd::std_specs::hash::group_hash_axioms;

        match self.map.get(&key) {
            Some(id) => Some(*id),
            None => None,
        }
    }

    /// Records the node index `id` for the board with number `key`.
    pub fn insert(&mut self, key: u64, id: usize)
        ensures
            final(self)@ == old(self)@.insert(key, id),
    {
        broadcast use vstd::std_specs::hash::group_hash_axioms;

        self.map.insert(key, id);
    }
}

} // verus!
