//! The grid vocabulary: tile coordinates, movement directions, the
//! bounded search window, and a packed integer key for sparse lookups.

use vstd::prelude::*;
use vstd::arithmetic::div_mod::lemma_fundamental_div_mod_converse;

verus! {

/// Largest absolute x or y offset from the start tile that the search
/// will expand. Successor generation stops at the edge of the resulting
/// square window centred on the start tile, which models the engine's
/// fixed-size active map region and bounds the cost of every query.
pub const DEFAULT_PATHFINDING_MAX_RANGE: i32 = 64;

/// A tile position in the game world: two horizontal axes and a
/// vertical plane (floor). Tiles are identified by exact value;
/// horizontal movement never changes the plane.
#[derive(Clone, Copy, Debug, PartialEq, Eq, Structural)]
pub struct Coordinate {
    pub x: i32,
    pub y: i32,
    pub plane: i32,
}

/// A horizontal movement offset: the x and y deltas of one step.
/// The eight walkable directions have each delta in -1, 0 or 1.
pub type Direction = (i32, i32);

/// One atomic move of the 8-connected grid: the plane is unchanged,
/// each horizontal axis changes by at most one, and the position as a
/// whole changes.
pub open spec fn one_step(a: Coordinate, b: Coordinate) -> bool {
    &&& b.plane == a.plane
    &&& -1 <= b.x - a.x <= 1
    &&& -1 <= b.y - a.y <= 1
    &&& !(b.x == a.x && b.y == a.y)
}

/// Whether `c` lies inside the bounded search window centred on `start`:
/// at most `DEFAULT_PATHFINDING_MAX_RANGE` away from it on each
/// horizontal axis.
pub open spec fn in_window(start: Coordinate, c: Coordinate) -> bool {
    &&& c.x - start.x <= DEFAULT_PATHFINDING_MAX_RANGE
    &&& start.x - c.x <= DEFAULT_PATHFINDING_MAX_RANGE
    &&& c.y - start.y <= DEFAULT_PATHFINDING_MAX_RANGE
    &&& start.y - c.y <= DEFAULT_PATHFINDING_MAX_RANGE
}

/// The start tile leaves room in `i32` for the whole search window plus
/// one further step on every side, so that no candidate coordinate the
/// search can form overflows the machine integers.
pub open spec fn start_fits(start: Coordinate) -> bool {
    &&& i32::MIN + 65 <= start.x <= i32::MAX - 65
    &&& i32::MIN + 65 <= start.y <= i32::MAX - 65
}

/// A coordinate packed into one integer, base 2^32 digit by digit, with
/// each signed axis shifted into 0..2^32. Distinct coordinates get
/// distinct keys (`lemma_key_injective`), so a set of keys stands for a
/// set of tiles.
pub closed spec fn key_of(c: Coordinate) -> u128 {
    (((c.x + 0x8000_0000) * 0x1_0000_0000_0000_0000) + ((c.y + 0x8000_0000) * 0x1_0000_0000) + (
    c.plane + 0x8000_0000)) as u128
}

/// Every packed key lies below 2^96.
pub proof fn lemma_key_in_range(c: Coordinate)
    ensures
        key_of(c) < 0x1_0000_0000_0000_0000_0000_0000u128,
{
    let v: int = ((c.x + 0x8000_0000) * 0x1_0000_0000_0000_0000) + ((c.y + 0x8000_0000)
        * 0x1_0000_0000) + (c.plane + 0x8000_0000);
    assert(0 <= v < 0x1_0000_0000_0000_0000_0000_0000);
}

/// Packing is injective: equal keys come only from equal coordinates.
pub proof fn lemma_key_injective(c1: Coordinate, c2: Coordinate)
    requires
        key_of(c1) == key_of(c2),
    ensures
        c1 == c2,
{
    let b: int = 0x1_0000_0000;
    let v1: int = ((c1.x + 0x8000_0000) * 0x1_0000_0000_0000_0000) + ((c1.y + 0x8000_0000)
        * 0x1_0000_0000) + (c1.plane + 0x8000_0000);
    let v2: int = ((c2.x + 0x8000_0000) * 0x1_0000_0000_0000_0000) + ((c2.y + 0x8000_0000)
        * 0x1_0000_0000) + (c2.plane + 0x8000_0000);
    assert(0 <= v1 < 0x1_0000_0000_0000_0000_0000_0000);
    assert(0 <= v2 < 0x1_0000_0000_0000_0000_0000_0000);
    assert(v1 == v2);
    lemma_fundamental_div_mod_converse(
        v1,
        b,
        (c1.x + 0x8000_0000) * b + (c1.y + 0x8000_0000),
        c1.plane + 0x8000_0000,
    );
    lemma_fundamental_div_mod_converse(
        v2,
        b,
        (c2.x + 0x8000_0000) * b + (c2.y + 0x8000_0000),
        c2.plane + 0x8000_0000,
    );
    let q: int = v1 / b;
    lemma_fundamental_div_mod_converse(q, b, c1.x + 0x8000_0000, c1.y + 0x8000_0000);
    lemma_fundamental_div_mod_converse(q, b, c2.x + 0x8000_0000, c2.y + 0x8000_0000);
}

/// The packed key, computed at run time; it agrees with `key_of`.
pub fn tile_key(coord: &Coordinate) -> (k: u128)
    ensures
        k == key_of(*coord),
{
    let x: u128 = (coord.x as i64 + 0x8000_0000i64) as u128;
    let y: u128 = (coord.y as i64 + 0x8000_0000i64) as u128;
    let p: u128 = (coord.plane as i64 + 0x8000_0000i64) as u128;
    x * 0x1_0000_0000_0000_0000u128 + y * 0x1_0000_0000u128 + p
}

} // verus!
