//! The collision map: a sparse, build-once record of blocked tiles.
//!
//! A tile with an entry is blocked; a tile without one is traversable.
//! Storing only the non-default tiles keeps the map small, and a missing
//! entry is never an error.

use std::collections::HashMap;

use vstd::prelude::*;

use crate::grid::{key_of, lemma_key_injective, tile_key, Coordinate};

verus! {

/// Per-tile blocking descriptor. The search reads an entry only as a
/// presence signal; the descriptor's value is kept for the loader but
/// never inspected here.
pub type CollisionTile = i32;

/// Answers "is this tile blocked?" for any grid coordinate, in O(1)
/// amortized time. Built once by a loader through [`CollisionMap::set_blocked`]
/// and read-only for the lifetime of every search that borrows it.
pub struct CollisionMap {
    tiles: HashMap<u128, CollisionTile>,
}

impl CollisionMap {
    /// The set of tiles that have an entry, i.e. are blocked.
    pub closed spec fn blocked(self) -> Set<Coordinate> {
        Set::new(|c: Coordinate| self.tiles@.contains_key(key_of(c)))
    }

    /// An empty map: every tile traversable.
    pub fn new() -> (m: CollisionMap)
        ensures
            m.blocked() == Set::<Coordinate>::empty(),
    {
        let m = CollisionMap { tiles: HashMap::new() };
        proof {
            assert(m.blocked() =~= Set::<Coordinate>::empty());
        }
        m
    }

    /// Record `coord` as blocked, with its descriptor. Entering a tile
    /// twice keeps it blocked and replaces the descriptor.
    pub fn set_blocked(&mut self, coord: Coordinate, tile: CollisionTile)
        ensures
            final(self).blocked() == old(self).blocked().insert(coord),
    {
        let k = tile_key(&coord);
        self.tiles.insert(k, tile);
        proof {
            assert forall|c: Coordinate|
                self.blocked().contains(c) == old(self).blocked().insert(coord).contains(c) by {
                if key_of(c) == key_of(coord) {
                    lemma_key_injective(c, coord);
                }
            }
            assert(self.blocked() =~= old(self).blocked().insert(coord));
        }
    }

    /// True iff `coord` has an entry, i.e. is blocked. No side effects.
    pub fn is_blocked(&self, coord: &Coordinate) -> (blocked: bool)
        ensures
            blocked == self.blocked().contains(*coord),
    {
        let k = tile_key(coord);
        self.tiles.contains_key(&k)
    }
}

} // verus!
