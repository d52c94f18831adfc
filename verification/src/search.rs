//! The pathfinder: bounded successor generation over the 8-connected
//! grid, and the breadth-first search that turns it into a route.

use std::collections::HashSet;

use vstd::prelude::*;
use vstd::set_lib::{lemma_int_range, lemma_len_subset, set_int_range};

use crate::collision::CollisionMap;
use crate::grid::{
    in_window, key_of, lemma_key_in_range, lemma_key_injective, one_step, start_fits, tile_key,
    Coordinate, Direction, DEFAULT_PATHFINDING_MAX_RANGE,
};

verus! {

/// The move leaving tile `i` of `p` is lawful: the tile lies inside the
/// search window, the move is one atomic step, and it lands on a tile
/// that is not blocked.
pub open spec fn step_ok(map: CollisionMap, start: Coordinate, p: Seq<Coordinate>, i: int) -> bool {
    &&& in_window(start, p[i])
    &&& one_step(p[i], p[i + 1])
    &&& !map.blocked().contains(p[i + 1])
}

/// A walkable route from `start`: every move along it is lawful. The
/// first tile and the final tile themselves are not gated, so a search
/// may begin or end on a blocked tile.
pub open spec fn valid_path(map: CollisionMap, start: Coordinate, p: Seq<Coordinate>) -> bool {
    &&& p.len() >= 1
    &&& p[0] == start
    &&& forall|i: int| 0 <= i < p.len() - 1 ==> #[trigger] step_ok(map, start, p, i)
}

/// The tile one `(dx, dy)` move away from `own`, on the same plane.
pub open spec fn step_to(own: Coordinate, dx: int, dy: int) -> Coordinate {
    Coordinate { x: (own.x + dx) as i32, y: (own.y + dy) as i32, plane: own.plane }
}

/// Whether the tile one `(dx, dy)` move away from `own` is representable
/// in machine integers.
pub open spec fn candidate_fits(own: Coordinate, dx: int, dy: int) -> bool {
    &&& i32::MIN <= own.x + dx <= i32::MAX
    &&& i32::MIN <= own.y + dy <= i32::MAX
}

/// The candidate `c` as a successor list: kept iff its own tile is not
/// blocked. No flanking tile is consulted for diagonal moves.
pub open spec fn maybe_succ(map: CollisionMap, c: Coordinate) -> Seq<Coordinate> {
    if map.blocked().contains(c) {
        Seq::<Coordinate>::empty()
    } else {
        seq![c]
    }
}

/// The successors of `own`, in the fixed evaluation order west, east,
/// south, north, south-west, south-east, north-west, north-east. The
/// order decides only which of several equal-length routes a search
/// returns, never whether one is found.
pub open spec fn successor_seq(map: CollisionMap, own: Coordinate) -> Seq<Coordinate> {
    maybe_succ(map, step_to(own, -1, 0)) + maybe_succ(map, step_to(own, 1, 0)) + maybe_succ(
        map,
        step_to(own, 0, -1),
    ) + maybe_succ(map, step_to(own, 0, 1)) + maybe_succ(map, step_to(own, -1, -1)) + maybe_succ(
        map,
        step_to(own, 1, -1),
    ) + maybe_succ(map, step_to(own, -1, 1)) + maybe_succ(map, step_to(own, 1, 1))
}

/// Every generated successor is one atomic move away from `own`, on the
/// same plane, and is not blocked.
pub proof fn lemma_successor_seq_sound(map: CollisionMap, start: Coordinate, own: Coordinate)
    requires
        start_fits(start),
        in_window(start, own),
    ensures
        forall|i: int|
            0 <= i < successor_seq(map, own).len() ==> one_step(
                own,
                #[trigger] successor_seq(map, own)[i],
            ) && !map.blocked().contains(successor_seq(map, own)[i]),
{
    let s = successor_seq(map, own);
    assert forall|i: int|
        0 <= i < s.len() implies one_step(own, #[trigger] s[i]) && !map.blocked().contains(
        s[i],
    ) by {
        assert(one_step(own, step_to(own, -1, 0)));
        assert(one_step(own, step_to(own, 1, 0)));
        assert(one_step(own, step_to(own, 0, -1)));
        assert(one_step(own, step_to(own, 0, 1)));
        assert(one_step(own, step_to(own, -1, -1)));
        assert(one_step(own, step_to(own, 1, -1)));
        assert(one_step(own, step_to(own, -1, 1)));
        assert(one_step(own, step_to(own, 1, 1)));
    }
}

/// Membership lifts from either side of a concatenation to the whole.
proof fn lemma_add_contains(a: Seq<Coordinate>, b: Seq<Coordinate>, x: Coordinate)
    requires
        a.contains(x) || b.contains(x),
    ensures
        (a + b).contains(x),
{
    if a.contains(x) {
        let i = choose|i: int| 0 <= i < a.len() && a[i] == x;
        assert((a + b)[i] == x);
    } else {
        let i = choose|i: int| 0 <= i < b.len() && b[i] == x;
        assert((a + b)[a.len() + i] == x);
    }
}

/// Every unblocked tile one atomic move away from `own` is generated as
/// a successor.
pub proof fn lemma_successor_seq_complete(
    map: CollisionMap,
    start: Coordinate,
    own: Coordinate,
    c: Coordinate,
)
    requires
        start_fits(start),
        in_window(start, own),
        one_step(own, c),
        !map.blocked().contains(c),
    ensures
        successor_seq(map, own).contains(c),
{
    let m1 = maybe_succ(map, step_to(own, -1, 0));
    let m2 = maybe_succ(map, step_to(own, 1, 0));
    let m3 = maybe_succ(map, step_to(own, 0, -1));
    let m4 = maybe_succ(map, step_to(own, 0, 1));
    let m5 = maybe_succ(map, step_to(own, -1, -1));
    let m6 = maybe_succ(map, step_to(own, 1, -1));
    let m7 = maybe_succ(map, step_to(own, -1, 1));
    let m8 = maybe_succ(map, step_to(own, 1, 1));
    let t2 = m1 + m2;
    let t3 = t2 + m3;
    let t4 = t3 + m4;
    let t5 = t4 + m5;
    let t6 = t5 + m6;
    let t7 = t6 + m7;
    assert(successor_seq(map, own) == t7 + m8);
    let dx = c.x - own.x;
    let dy = c.y - own.y;
    if dx == -1 && dy == 0 {
        assert(m1 == seq![c]);
        assert(m1[0] == c);
        lemma_add_contains(m1, m2, c);
        lemma_add_contains(t2, m3, c);
        lemma_add_contains(t3, m4, c);
        lemma_add_contains(t4, m5, c);
        lemma_add_contains(t5, m6, c);
        lemma_add_contains(t6, m7, c);
        lemma_add_contains(t7, m8, c);
    } else if dx == 1 && dy == 0 {
        assert(m2 == seq![c]);
        assert(m2[0] == c);
        lemma_add_contains(m1, m2, c);
        lemma_add_contains(t2, m3, c);
        lemma_add_contains(t3, m4, c);
        lemma_add_contains(t4, m5, c);
        lemma_add_contains(t5, m6, c);
        lemma_add_contains(t6, m7, c);
        lemma_add_contains(t7, m8, c);
    } else if dx == 0 && dy == -1 {
        assert(m3 == seq![c]);
        assert(m3[0] == c);
        lemma_add_contains(t2, m3, c);
        lemma_add_contains(t3, m4, c);
        lemma_add_contains(t4, m5, c);
        lemma_add_contains(t5, m6, c);
        lemma_add_contains(t6, m7, c);
        lemma_add_contains(t7, m8, c);
    } else if dx == 0 && dy == 1 {
        assert(m4 == seq![c]);
        assert(m4[0] == c);
        lemma_add_contains(t3, m4, c);
        lemma_add_contains(t4, m5, c);
        lemma_add_contains(t5, m6, c);
        lemma_add_contains(t6, m7, c);
        lemma_add_contains(t7, m8, c);
    } else if dx == -1 && dy == -1 {
        assert(m5 == seq![c]);
        assert(m5[0] == c);
        lemma_add_contains(t4, m5, c);
        lemma_add_contains(t5, m6, c);
        lemma_add_contains(t6, m7, c);
        lemma_add_contains(t7, m8, c);
    } else if dx == 1 && dy == -1 {
        assert(m6 == seq![c]);
        assert(m6[0] == c);
        lemma_add_contains(t5, m6, c);
        lemma_add_contains(t6, m7, c);
        lemma_add_contains(t7, m8, c);
    } else if dx == -1 && dy == 1 {
        assert(m7 == seq![c]);
        assert(m7[0] == c);
        lemma_add_contains(t6, m7, c);
        lemma_add_contains(t7, m8, c);
    } else {
        assert(dx == 1 && dy == 1);
        assert(m8 == seq![c]);
        assert(m8[0] == c);
        lemma_add_contains(t7, m8, c);
    }
}

/// Append the tile one `direction` move from `coord` to `successors`,
/// unless that tile is blocked in the collision map. Only the candidate
/// tile's own blocked state is consulted, also for diagonal moves.
pub fn check_successor(
    coord: &Coordinate,
    collision_map: &CollisionMap,
    successors: &mut Vec<Coordinate>,
    direction: Direction,
)
    requires
        candidate_fits(*coord, direction.0 as int, direction.1 as int),
    ensures
        final(successors)@ == old(successors)@ + maybe_succ(
            *collision_map,
            step_to(*coord, direction.0 as int, direction.1 as int),
        ),
{
    let current_coordinate = Coordinate {
        x: coord.x + direction.0,
        y: coord.y + direction.1,
        plane: coord.plane,
    };
    if collision_map.is_blocked(&current_coordinate) {
        proof {
            assert(final(successors)@ =~= old(successors)@ + maybe_succ(
                *collision_map,
                step_to(*coord, direction.0 as int, direction.1 as int),
            ));
        }
    } else {
        successors.push(current_coordinate);
        proof {
            assert(final(successors)@ =~= old(successors)@ + maybe_succ(
                *collision_map,
                step_to(*coord, direction.0 as int, direction.1 as int),
            ));
        }
    }
}

/// The tiles reachable from `own` by one atomic move: empty when `own`
/// lies outside the search window around `start_tile`, else the eight
/// neighbouring tiles in fixed order with the blocked ones dropped.
pub fn get_successors(
    own: &Coordinate,
    start_tile: &Coordinate,
    collision_map: &CollisionMap,
) -> (successors: Vec<Coordinate>)
    requires
        start_fits(*start_tile),
    ensures
        in_window(*start_tile, *own) ==> successors@ == successor_seq(*collision_map, *own),
        !in_window(*start_tile, *own) ==> successors@ == Seq::<Coordinate>::empty(),
        forall|i: int|
            0 <= i < successors@.len() ==> one_step(*own, #[trigger] successors@[i])
                && !collision_map.blocked().contains(successors@[i]),
{
    let mut successors: Vec<Coordinate> = Vec::new();

    // A tile beyond the fixed window is never expanded: the search is
    // walled off at the region boundary.
    if own.x > start_tile.x + DEFAULT_PATHFINDING_MAX_RANGE || own.x < start_tile.x
        - DEFAULT_PATHFINDING_MAX_RANGE || own.y > start_tile.y + DEFAULT_PATHFINDING_MAX_RANGE
        || own.y < start_tile.y - DEFAULT_PATHFINDING_MAX_RANGE {
        return successors;
    }
    check_successor(own, collision_map, &mut successors, (-1, 0));
    check_successor(own, collision_map, &mut successors, (1, 0));
    check_successor(own, collision_map, &mut successors, (0, -1));
    check_successor(own, collision_map, &mut successors, (0, 1));
    check_successor(own, collision_map, &mut successors, (-1, -1));
    check_successor(own, collision_map, &mut successors, (1, -1));
    check_successor(own, collision_map, &mut successors, (-1, 1));
    check_successor(own, collision_map, &mut successors, (1, 1));
    proof {
        assert(successors@ =~= successor_seq(*collision_map, *own));
        lemma_successor_seq_sound(*collision_map, *start_tile, *own);
    }
    successors
}

/// Whether some stored path ends at `c`.
spec fn enqueued(queue: Seq<Vec<Coordinate>>, c: Coordinate) -> bool {
    exists|k: int| 0 <= k < queue.len() && (#[trigger] queue[k])@.last() == c
}

/// Every unblocked tile one atomic move away from `own` has its key in
/// `seen`: nothing walkable out of `own` is still undiscovered.
spec fn expanded(map: CollisionMap, seen: Set<u128>, own: Coordinate) -> bool {
    forall|c: Coordinate|
        one_step(own, c) && !map.blocked().contains(c) ==> seen.contains(#[trigger] key_of(c))
}

/// Some stored path ends at `c` and is at most `n` tiles long.
spec fn enqueued_within(queue: Seq<Vec<Coordinate>>, c: Coordinate, n: int) -> bool {
    exists|k: int|
        0 <= k < queue.len() && (#[trigger] queue[k])@.last() == c && queue[k]@.len() <= n
}

/// Every lawful move out of entry `k`'s tile is already recorded by some
/// stored path at most one tile longer than entry `k`.
spec fn relaxed(map: CollisionMap, start: Coordinate, queue: Seq<Vec<Coordinate>>, k: int) -> bool {
    forall|c: Coordinate|
        #[trigger] one_step(queue[k]@.last(), c) && !map.blocked().contains(c) && in_window(
            start,
            queue[k]@.last(),
        ) ==> enqueued_within(queue, c, queue[k]@.len() + 1int)
}

/// Some not-yet-expanded entry ends on a tile of `q`, no later along the
/// queue's discovery order than `q` itself reaches that tile.
spec fn frontier_touches(queue: Seq<Vec<Coordinate>>, head: int, q: Seq<Coordinate>) -> bool {
    exists|i: int, k: int|
        #![trigger queue[k], q[i]]
        0 <= i < q.len() && head <= k < queue.len() && queue[k]@.last() == q[i] && queue[k]@.len()
            <= i + 1
}

/// The breadth-first cut: a walkable route is either already recorded in
/// full, within its own length, or still crosses the unexpanded frontier
/// with no extra length spent.
spec fn cut_ok(queue: Seq<Vec<Coordinate>>, head: int, q: Seq<Coordinate>) -> bool {
    ||| enqueued_within(queue, q.last(), q.len() as int)
    ||| frontier_touches(queue, head, q)
}

/// `q1` carries `q0`'s entries unchanged, plus possibly more at the end.
spec fn extends(q1: Seq<Vec<Coordinate>>, q0: Seq<Vec<Coordinate>>) -> bool {
    &&& q0.len() <= q1.len()
    &&& forall|k: int| 0 <= k < q0.len() ==> #[trigger] q1[k] == q0[k]
}

/// A recorded path survives appending entries to the queue.
proof fn lemma_extends_enqueued_within(
    q0: Seq<Vec<Coordinate>>,
    q1: Seq<Vec<Coordinate>>,
    c: Coordinate,
    n: int,
)
    requires
        extends(q1, q0),
        enqueued_within(q0, c, n),
    ensures
        enqueued_within(q1, c, n),
{
    let k = choose|k: int|
        0 <= k < q0.len() && (#[trigger] q0[k])@.last() == c && q0[k]@.len() <= n;
    assert((q1[k])@.last() == c && q1[k]@.len() <= n);
}

/// The breadth-first cut survives appending entries to the queue.
proof fn lemma_extends_cut(
    q0: Seq<Vec<Coordinate>>,
    q1: Seq<Vec<Coordinate>>,
    head: int,
    q: Seq<Coordinate>,
)
    requires
        0 <= head,
        extends(q1, q0),
        cut_ok(q0, head, q),
    ensures
        cut_ok(q1, head, q),
{
    if enqueued_within(q0, q.last(), q.len() as int) {
        lemma_extends_enqueued_within(q0, q1, q.last(), q.len() as int);
    } else {
        assert(frontier_touches(q0, head, q));
        let (i, k) = choose|i: int, k: int|
            #![trigger q0[k], q[i]]
            0 <= i < q.len() && head <= k < q0.len() && q0[k]@.last() == q[i] && q0[k]@.len() <= i
                + 1;
        assert(0 <= i < q.len() && head <= k < q0.len() && q0[k]@.last() == q[i] && q0[k]@.len()
            <= i + 1);
        assert(q1[k] == q0[k]);
        assert((q1[k])@.last() == q[i] && q1[k]@.len() <= i + 1);
        assert(frontier_touches(q1, head, q));
    }
}

/// Relaxedness survives appending entries to the queue.
proof fn lemma_extends_relaxed(
    map: CollisionMap,
    start: Coordinate,
    q0: Seq<Vec<Coordinate>>,
    q1: Seq<Vec<Coordinate>>,
    k: int,
)
    requires
        extends(q1, q0),
        0 <= k < q0.len(),
        relaxed(map, start, q0, k),
    ensures
        relaxed(map, start, q1, k),
{
    assert(q1[k] == q0[k]);
    assert forall|c: Coordinate|
        #[trigger] one_step(q1[k]@.last(), c) && !map.blocked().contains(c) && in_window(
            start,
            q1[k]@.last(),
        ) implies enqueued_within(q1, c, q1[k]@.len() + 1int) by {
        assert(enqueued_within(q0, c, q0[k]@.len() + 1int));
        lemma_extends_enqueued_within(q0, q1, c, q0[k]@.len() + 1int);
    }
}

/// Walking a route forward from a tile some entry reaches within the
/// route's own budget: with every expanded entry relaxed, the route is
/// either recorded in full or still touches the frontier.
proof fn lemma_cut_chain(
    map: CollisionMap,
    start: Coordinate,
    queue: Seq<Vec<Coordinate>>,
    head: int,
    q: Seq<Coordinate>,
    i: int,
)
    requires
        0 <= head <= queue.len(),
        forall|k: int| 0 <= k < head ==> #[trigger] relaxed(map, start, queue, k),
        valid_path(map, start, q),
        0 <= i < q.len(),
        enqueued_within(queue, q[i], i + 1),
    ensures
        cut_ok(queue, head, q),
    decreases q.len() - i,
{
    let k = choose|k: int|
        0 <= k < queue.len() && (#[trigger] queue[k])@.last() == q[i] && queue[k]@.len() <= i + 1;
    if k >= head {
        assert(frontier_touches(queue, head, q));
    } else if i == q.len() - 1 {
        assert(queue[k]@.last() == q.last());
        assert(enqueued_within(queue, q.last(), q.len() as int));
    } else {
        assert(step_ok(map, start, q, i));
        assert(relaxed(map, start, queue, k));
        assert(one_step(queue[k]@.last(), q[i + 1]));
        assert(enqueued_within(queue, q[i + 1], queue[k]@.len() + 1int));
        let k2 = choose|k2: int|
            0 <= k2 < queue.len() && (#[trigger] queue[k2])@.last() == q[i + 1] && queue[k2]@.len()
                <= queue[k]@.len() + 1;
        assert(queue[k2]@.len() <= i + 2);
        assert(enqueued_within(queue, q[i + 1], i + 2));
        lemma_cut_chain(map, start, queue, head, q, i + 1);
    }
}

/// The packed tile keys below 2^96 that a search has not seen yet: a
/// finite pool that shrinks at every newly discovered tile, which bounds
/// the search even when no route exists.
spec fn unseen_keys(seen: Set<u128>) -> Set<int> {
    set_int_range(0, 0x1_0000_0000_0000_0000_0000_0000).difference(
        Set::new(|i: int| seen.contains(i as u128)),
    )
}

/// A fresh copy of a stored path, so it can be extended without
/// disturbing the queue entry it came from.
fn copy_path(path: &Vec<Coordinate>) -> (copy: Vec<Coordinate>)
    ensures
        copy@ == path@,
{
    let mut copy: Vec<Coordinate> = Vec::new();
    let mut i: usize = 0;
    while i < path.len()
        invariant
            i <= path@.len(),
            copy@ == path@.subrange(0, i as int),
        decreases path@.len() - i,
    {
        copy.push(path[i]);
        proof {
            assert(copy@ =~= path@.subrange(0, i as int + 1));
        }
        i = i + 1;
    }
    proof {
        assert(copy@ =~= path@);
    }
    copy
}

/// After an exhausted search — every discovered tile expanded — walking
/// any valid path by induction shows each of its tiles was discovered.
proof fn lemma_exhausted_path_seen(
    map: CollisionMap,
    start: Coordinate,
    queue: Seq<Vec<Coordinate>>,
    seen: Set<u128>,
    q: Seq<Coordinate>,
    n: int,
)
    requires
        seen.contains(key_of(start)),
        forall|c: Coordinate| #[trigger] seen.contains(key_of(c)) ==> enqueued(queue, c),
        forall|k: int|
            0 <= k < queue.len() && in_window(start, (#[trigger] queue[k])@.last()) ==> expanded(
                map,
                seen,
                queue[k]@.last(),
            ),
        valid_path(map, start, q),
        1 <= n <= q.len(),
    ensures
        seen.contains(key_of(q[n - 1])),
    decreases n,
{
    if n == 1 {
        assert(q[0] == start);
    } else {
        lemma_exhausted_path_seen(map, start, queue, seen, q, n - 1);
        let prev = q[n - 2];
        assert(enqueued(queue, prev));
        let k = choose|k: int| 0 <= k < queue.len() && (#[trigger] queue[k])@.last() == prev;
        assert(step_ok(map, start, q, n - 2));
        assert(in_window(start, prev));
        assert(one_step(prev, q[n - 1]));
        assert(!map.blocked().contains(q[n - 1]));
        assert(expanded(map, seen, prev));
    }
}

/// The search: an unweighted breadth-first walk of the implicit graph
/// whose edges `get_successors` produces. Tiles are taken in discovery
/// order; each stored entry carries its whole route from `start`, so a
/// hit on `end` returns at once. An emptied frontier means no route
/// exists through the window's unblocked tiles — an expected outcome,
/// not a fault.
#[verifier::loop_isolation(false)]
fn bfs_search(start: Coordinate, end: Coordinate, collision_map: &CollisionMap) -> (r: Option<
    Vec<Coordinate>,
>)
    requires
        start_fits(start),
    ensures
        (match r {
            Some(p) => valid_path(*collision_map, start, p@) && p@.last() == end
                && p@.no_duplicates(),
            None => forall|q: Seq<Coordinate>|
                valid_path(*collision_map, start, q) ==> q.last() != end,
        }),
        start == end ==> (r matches Some(p) && p@ == seq![start]),
        (r matches Some(p) ==> forall|q: Seq<Coordinate>|
            valid_path(*collision_map, start, q) && q.last() == end ==> q.len() >= p@.len()),
{
    let mut queue: Vec<Vec<Coordinate>> = Vec::new();
    let mut seen: HashSet<u128> = HashSet::new();
    let mut head: usize = 0;

    let mut first: Vec<Coordinate> = Vec::new();
    first.push(start);
    queue.push(first);
    let start_key = tile_key(&start);
    seen.insert(start_key);

    proof {
        assert(queue@[0]@ =~= seq![start]);
        assert(queue@[0]@.no_duplicates());
        assert forall|c: Coordinate| #[trigger] seen@.contains(key_of(c)) implies enqueued(
            queue@,
            c,
        ) by {
            lemma_key_injective(c, start);
            assert((queue@[0])@.last() == c);
        }
        assert forall|q: Seq<Coordinate>|
            valid_path(*collision_map, start, q) implies #[trigger] cut_ok(queue@, 0, q) by {
            assert(q[0] == start);
            assert((queue@[0])@.last() == q[0] && queue@[0]@.len() <= 0 + 1);
            assert(frontier_touches(queue@, 0, q));
        }
    }
    while head < queue.len()
        invariant
            head <= queue@.len(),
            seen@.contains(key_of(start)),
            forall|k: int|
                0 <= k < queue@.len() ==> valid_path(
                    *collision_map,
                    start,
                    (#[trigger] queue@[k])@,
                ),
            forall|k: int| 0 <= k < queue@.len() ==> (#[trigger] queue@[k])@.no_duplicates(),
            forall|c: Coordinate| #[trigger] seen@.contains(key_of(c)) ==> enqueued(queue@, c),
            forall|k: int, j: int|
                0 <= k < queue@.len() && 0 <= j < queue@[k]@.len() ==> seen@.contains(
                    key_of(#[trigger] queue@[k]@[j]),
                ),
            forall|k: int| 0 <= k < head ==> (#[trigger] queue@[k])@.last() != end,
            forall|k: int|
                0 <= k < head && in_window(start, (#[trigger] queue@[k])@.last()) ==> expanded(
                    *collision_map,
                    seen@,
                    queue@[k]@.last(),
                ),
            forall|k1: int, k2: int|
                0 <= k1 <= k2 < queue@.len() ==> (#[trigger] queue@[k1])@.len() <= (
                #[trigger] queue@[k2])@.len(),
            forall|k: int|
                0 <= k < queue@.len() && head < queue@.len() ==> (#[trigger] queue@[k])@.len()
                    <= queue@[head as int]@.len() + 1,
            forall|k1: int, k2: int|
                0 <= k1 < k2 < queue@.len() ==> (#[trigger] queue@[k1])@.last() != (
                #[trigger] queue@[k2])@.last(),
            forall|k: int| 0 <= k < head ==> #[trigger] relaxed(*collision_map, start, queue@, k),
            forall|q: Seq<Coordinate>|
                valid_path(*collision_map, start, q) ==> #[trigger] cut_ok(queue@, head as int, q),
        decreases unseen_keys(seen@).len(), queue@.len() - head,
    {
        let path = copy_path(&queue[head]);
        proof {
            assert(path@.len() >= 1);
        }
        let own: Coordinate = path[path.len() - 1];
        proof {
            assert(own == path@.last());
        }
        if own == end {
            proof {
                assert forall|q: Seq<Coordinate>|
                    valid_path(*collision_map, start, q) && q.last() == end implies q.len()
                    >= path@.len() by {
                    assert(cut_ok(queue@, head as int, q));
                    if enqueued_within(queue@, q.last(), q.len() as int) {
                        let k = choose|k: int|
                            0 <= k < queue@.len() && (#[trigger] queue@[k])@.last() == q.last()
                                && queue@[k]@.len() <= q.len();
                        assert((queue@[head as int])@.last() == end);
                        if k != head {
                            assert((queue@[k])@.last() != (queue@[head as int])@.last());
                            assert(false);
                        }
                        assert(queue@[head as int]@.len() <= q.len());
                    } else {
                        assert(frontier_touches(queue@, head as int, q));
                        let (i, k) = choose|i: int, k: int|
                            #![trigger queue@[k], q[i]]
                            0 <= i < q.len() && head <= k < queue@.len() && queue@[k]@.last()
                                == q[i] && queue@[k]@.len() <= i + 1;
                        assert(queue@[head as int]@.len() <= queue@[k]@.len());
                        assert(queue@[k]@.len() <= i + 1);
                    }
                    assert(path@ == queue@[head as int]@);
                }
                if start == end {
                    if path@.len() > 1 {
                        assert(path@[0] == start);
                        assert(path@[path@.len() - 1] == start);
                        assert(false);
                    }
                    assert(path@ =~= seq![start]);
                }
            }
            return Some(path);
        }
        let successors = get_successors(&own, &start, collision_map);
        let ghost seen0 = seen@;
        let ghost queue0 = queue@;
        let mut j: usize = 0;
        while j < successors.len()
            invariant
                j <= successors@.len(),
                head < queue@.len(),
                queue@[head as int]@ == path@,
                seen@.contains(key_of(start)),
                forall|k: int|
                    0 <= k < queue@.len() ==> valid_path(
                        *collision_map,
                        start,
                        (#[trigger] queue@[k])@,
                    ),
                forall|k: int| 0 <= k < queue@.len() ==> (#[trigger] queue@[k])@.no_duplicates(),
                forall|c: Coordinate| #[trigger] seen@.contains(key_of(c)) ==> enqueued(queue@, c),
                forall|k: int, jj: int|
                    0 <= k < queue@.len() && 0 <= jj < queue@[k]@.len() ==> seen@.contains(
                        key_of(#[trigger] queue@[k]@[jj]),
                    ),
                forall|k: int| 0 <= k < head ==> (#[trigger] queue@[k])@.last() != end,
                forall|k: int|
                    0 <= k < head && in_window(start, (#[trigger] queue@[k])@.last()) ==> expanded(
                        *collision_map,
                        seen@,
                        queue@[k]@.last(),
                    ),
                forall|i: int|
                    0 <= i < j ==> seen@.contains(key_of(#[trigger] successors@[i])),
                forall|k: u128| seen0.contains(k) ==> seen@.contains(k),
                unseen_keys(seen@).len() <= unseen_keys(seen0).len(),
                unseen_keys(seen@).len() == unseen_keys(seen0).len() ==> seen@ == seen0,
                seen@ == seen0 ==> queue@ == queue0,
                extends(queue@, queue0),
                forall|k1: int, k2: int|
                    0 <= k1 <= k2 < queue@.len() ==> (#[trigger] queue@[k1])@.len() <= (
                    #[trigger] queue@[k2])@.len(),
                forall|k: int|
                    0 <= k < queue@.len() ==> (#[trigger] queue@[k])@.len() <= path@.len() + 1,
                forall|k1: int, k2: int|
                    0 <= k1 < k2 < queue@.len() ==> (#[trigger] queue@[k1])@.last() != (
                    #[trigger] queue@[k2])@.last(),
                forall|k: int|
                    0 <= k < head ==> #[trigger] relaxed(*collision_map, start, queue0, k),
                forall|q: Seq<Coordinate>|
                    valid_path(*collision_map, start, q) ==> #[trigger] cut_ok(
                        queue0,
                        head as int,
                        q,
                    ),
            decreases successors@.len() - j,
        {
            let s: Coordinate = successors[j];
            let sk = tile_key(&s);
            if !seen.contains(&sk) {
                let ghost seen_pre = seen@;
                let ghost queue_pre = queue@;
                proof {
                    lemma_int_range(0, 0x1_0000_0000_0000_0000_0000_0000);
                    lemma_key_in_range(s);
                    lemma_len_subset(
                        unseen_keys(seen_pre),
                        set_int_range(0, 0x1_0000_0000_0000_0000_0000_0000),
                    );
                    assert(unseen_keys(seen_pre).contains(sk as int));
                }
                seen.insert(sk);
                let mut extended = copy_path(&path);
                extended.push(s);
                queue.push(extended);
                proof {
                    // the window gate: a tile outside it yields no successors,
                    // so a produced successor means `own` was inside
                    assert(in_window(start, own));
                    assert(one_step(own, s) && !collision_map.blocked().contains(s));
                    let q = queue@;
                    let newp = q[q.len() - 1]@;
                    assert(newp =~= path@.push(s));
                    // the extension is still a valid, duplicate-free path
                    assert forall|i: int| 0 <= i < newp.len() - 1 implies #[trigger] step_ok(
                        *collision_map,
                        start,
                        newp,
                        i,
                    ) by {
                        if i < path@.len() - 1 {
                            assert(step_ok(*collision_map, start, path@, i));
                            assert(newp[i] == path@[i] && newp[i + 1] == path@[i + 1]);
                        } else {
                            assert(newp[i] == own && newp[i + 1] == s);
                        }
                    }
                    assert(valid_path(*collision_map, start, newp));
                    assert forall|i: int, jj: int|
                        0 <= i < newp.len() && 0 <= jj < newp.len() && i != jj implies newp[i]
                        != newp[jj] by {
                        if i < newp.len() - 1 && jj < newp.len() - 1 {
                            assert(path@[i] != path@[jj]);
                        } else {
                            let o = if i < newp.len() - 1 {
                                i
                            } else {
                                jj
                            };
                            if newp[o] == s {
                                assert(seen_pre.contains(key_of(path@[o])));
                                assert(false);
                            }
                        }
                    }
                    assert(newp.no_duplicates());
                    // the queue still extends its popped-state prefix
                    assert forall|k: int| 0 <= k < queue0.len() implies #[trigger] queue@[k]
                        == queue0[k] by {
                        assert(queue@[k] == queue_pre[k]);
                    }
                    assert(extends(queue@, queue0));
                    // the new entry is one move longer than the popped path,
                    // which no earlier entry outruns
                    assert forall|k1: int, k2: int|
                        0 <= k1 <= k2 < queue@.len() implies (#[trigger] queue@[k1])@.len() <= (
                        #[trigger] queue@[k2])@.len() by {
                        if k2 == queue@.len() - 1 {
                            if k1 < k2 {
                                assert(queue@[k1] == queue_pre[k1]);
                                assert(queue_pre[k1]@.len() <= path@.len() + 1);
                            }
                        } else {
                            assert(queue@[k1] == queue_pre[k1] && queue@[k2] == queue_pre[k2]);
                            assert(queue_pre[k1]@.len() <= queue_pre[k2]@.len());
                        }
                    }
                    assert forall|k: int|
                        0 <= k < queue@.len() implies (#[trigger] queue@[k])@.len() <= path@.len()
                        + 1 by {
                        if k < queue@.len() - 1 {
                            assert(queue@[k] == queue_pre[k]);
                        }
                    }
                    // entries still end at pairwise distinct tiles: the new
                    // tile was unseen, every stored end was seen
                    assert forall|k1: int, k2: int|
                        0 <= k1 < k2 < queue@.len() implies (#[trigger] queue@[k1])@.last() != (
                        #[trigger] queue@[k2])@.last() by {
                        if k2 == queue@.len() - 1 {
                            assert(queue@[k1] == queue_pre[k1]);
                            let lst = queue_pre[k1]@;
                            assert(seen_pre.contains(key_of(lst[lst.len() - 1])));
                            assert(queue@[k2]@.last() == s);
                            if lst.last() == s {
                                assert(false);
                            }
                        } else {
                            assert(queue@[k1] == queue_pre[k1] && queue@[k2] == queue_pre[k2]);
                        }
                    }
                    // every seen key still names the end of some stored path
                    assert forall|c: Coordinate| #[trigger] seen@.contains(key_of(c)) implies
                        enqueued(queue@, c) by {
                        if seen_pre.contains(key_of(c)) {
                            let k = choose|k: int|
                                0 <= k < queue_pre.len() && (#[trigger] queue_pre[k])@.last() == c;
                            assert((queue@[k])@.last() == c);
                        } else {
                            lemma_key_injective(c, s);
                            assert((queue@[q.len() - 1])@.last() == c);
                        }
                    }
                    // already-expanded tiles stay expanded as `seen` grows
                    assert forall|k: int|
                        0 <= k < head && in_window(start, (#[trigger] queue@[k])@.last()) implies
                        expanded(*collision_map, seen@, queue@[k]@.last()) by {
                        assert(expanded(*collision_map, seen_pre, queue_pre[k]@.last()));
                        assert forall|c: Coordinate|
                            one_step(queue@[k]@.last(), c) && !collision_map.blocked().contains(
                                c,
                            ) implies seen@.contains(#[trigger] key_of(c)) by {
                            assert(seen_pre.contains(key_of(c)));
                        }
                    }
                    // one more key seen: the unseen pool shrinks by exactly one
                    assert forall|i: int|
                        unseen_keys(seen@).contains(i) == unseen_keys(seen_pre).remove(
                            sk as int,
                        ).contains(i) by {
                        if 0 <= i < 0x1_0000_0000_0000_0000_0000_0000 {
                            assert((i as u128) as int == i);
                        }
                    }
                    assert(unseen_keys(seen@) =~= unseen_keys(seen_pre).remove(sk as int));
                    assert(unseen_keys(seen@).len() < unseen_keys(seen_pre).len());
                    if seen@ == seen0 {
                        assert(seen@.contains(sk) && !seen0.contains(sk));
                        assert(false);
                    }
                }
            }
            j = j + 1;
        }
        proof {
            // the popped tile is now fully expanded
            if in_window(start, own) {
                assert forall|c: Coordinate|
                    one_step(own, c) && !collision_map.blocked().contains(c) implies seen@.contains(
                    #[trigger] key_of(c),
                ) by {
                    lemma_successor_seq_complete(*collision_map, start, own, c);
                    let i = choose|i: int|
                        0 <= i < successors@.len() && successors@[i] == c;
                    assert(seen@.contains(key_of(successors@[i])));
                }
                assert(expanded(*collision_map, seen@, own));
            }
            // entries already expanded stay relaxed in the grown queue
            assert forall|k: int| 0 <= k < head implies #[trigger] relaxed(
                *collision_map,
                start,
                queue@,
                k,
            ) by {
                lemma_extends_relaxed(*collision_map, start, queue0, queue@, k);
            }
            // and the popped entry becomes relaxed through its successors
            assert forall|c: Coordinate|
                #[trigger] one_step(queue@[head as int]@.last(), c)
                    && !collision_map.blocked().contains(c) && in_window(
                    start,
                    queue@[head as int]@.last(),
                ) implies enqueued_within(queue@, c, queue@[head as int]@.len() + 1int) by {
                assert(queue@[head as int]@ == path@);
                assert(one_step(own, c));
                lemma_successor_seq_complete(*collision_map, start, own, c);
                let i = choose|i: int| 0 <= i < successors@.len() && successors@[i] == c;
                assert(seen@.contains(key_of(successors@[i])));
                assert(enqueued(queue@, c));
                let k2 = choose|k2: int|
                    0 <= k2 < queue@.len() && (#[trigger] queue@[k2])@.last() == c;
                assert(queue@[k2]@.len() <= path@.len() + 1);
                assert(enqueued_within(queue@, c, path@.len() + 1int));
            }
            assert(relaxed(*collision_map, start, queue@, head as int));
            // every walkable route is still cut by the advanced frontier
            assert forall|q: Seq<Coordinate>|
                valid_path(*collision_map, start, q) implies #[trigger] cut_ok(
                    queue@,
                    head as int + 1,
                    q,
                ) by {
                lemma_extends_cut(queue0, queue@, head as int, q);
                if enqueued_within(queue@, q.last(), q.len() as int) {
                } else {
                    assert(frontier_touches(queue@, head as int, q));
                    let (i, k) = choose|i: int, k: int|
                        #![trigger queue@[k], q[i]]
                        0 <= i < q.len() && head <= k < queue@.len() && queue@[k]@.last() == q[i]
                            && queue@[k]@.len() <= i + 1;
                    if k >= head + 1 {
                        assert(frontier_touches(queue@, head as int + 1, q));
                    } else {
                        assert(enqueued_within(queue@, q[i], i + 1));
                        lemma_cut_chain(*collision_map, start, queue@, head as int + 1, q, i);
                    }
                }
            }
        }
        head = head + 1;
        proof {
            // the frontier bound carries to the next unprocessed entry
            assert forall|k: int|
                0 <= k < queue@.len() && head < queue@.len() implies (
                #[trigger] queue@[k])@.len() <= queue@[head as int]@.len() + 1 by {
                assert(queue@[k]@.len() <= path@.len() + 1);
                assert(queue@[(head - 1) as int]@ == path@);
                assert(queue@[(head - 1) as int]@.len() <= queue@[head as int]@.len());
            }
        }
    }
    proof {
        assert forall|q: Seq<Coordinate>|
            valid_path(*collision_map, start, q) implies q.last() != end by {
            if q.last() == end {
                lemma_exhausted_path_seen(
                    *collision_map,
                    start,
                    queue@,
                    seen@,
                    q,
                    q.len() as int,
                );
                assert(enqueued(queue@, q[q.len() - 1]));
                let k = choose|k: int|
                    0 <= k < queue@.len() && (#[trigger] queue@[k])@.last() == q[q.len() - 1];
                assert((queue@[k])@.last() != end);
                assert(false);
            }
        }
        assert(valid_path(*collision_map, start, seq![start]));
        assert(start != end);
    }
    None
}

/// The searcher itself is stateless: every query borrows the collision
/// map and owns its result.
pub struct Pathfinder {}

impl Pathfinder {
    /// A searcher ready for queries.
    pub fn new() -> (p: Pathfinder) {
        Pathfinder {}
    }

    /// The shortest-hop route from `start` to `end`, or `None` when no
    /// route exists through the window's unblocked tiles. A returned
    /// route runs from `start` to `end` inclusive, repeats no tile,
    /// moves one atomic step at a time, and touches no blocked tile
    /// after its first; and `None` comes only when no such route exists
    /// at all. Start and end equal give the one-tile route at once.
    pub fn find_path(
        &self,
        start: Coordinate,
        end: Coordinate,
        collision_map: &CollisionMap,
    ) -> (r: Option<Vec<Coordinate>>)
        requires
            start_fits(start),
        ensures
            (match r {
                Some(p) => valid_path(*collision_map, start, p@) && p@.last() == end
                    && p@.no_duplicates(),
                None => forall|q: Seq<Coordinate>|
                    valid_path(*collision_map, start, q) ==> q.last() != end,
            }),
            start == end ==> (r matches Some(p) && p@ == seq![start]),
            (r matches Some(p) ==> p@.len() >= 1 && p@[0] == start && p@.last() == end),
            (r matches Some(p) ==> forall|i: int|
                1 <= i < p@.len() ==> !collision_map.blocked().contains(#[trigger] p@[i])),
            (r matches Some(p) ==> forall|i: int|
                0 <= i < p@.len() - 1 ==> one_step(#[trigger] p@[i], p@[i + 1])),
            (r matches Some(p) ==> forall|q: Seq<Coordinate>|
                valid_path(*collision_map, start, q) && q.last() == end ==> q.len() >= p@.len()),
    {
        let r = bfs_search(start, end, collision_map);
        proof {
            match r {
                Some(ref p) => lemma_route_shape(*collision_map, start, end, p@),
                None => {},
            }
        }
        r
    }

    /// The extension point for obstacle-aware re-planning. The smart
    /// strategy is not a distinct algorithm: it performs the identical
    /// bounded search, under the identical contract.
    pub fn find_path_smart(
        &self,
        start: Coordinate,
        end: Coordinate,
        collision_map: &CollisionMap,
    ) -> (r: Option<Vec<Coordinate>>)
        requires
            start_fits(start),
        ensures
            (match r {
                Some(p) => valid_path(*collision_map, start, p@) && p@.last() == end
                    && p@.no_duplicates(),
                None => forall|q: Seq<Coordinate>|
                    valid_path(*collision_map, start, q) ==> q.last() != end,
            }),
            start == end ==> (r matches Some(p) && p@ == seq![start]),
            (r matches Some(p) ==> p@.len() >= 1 && p@[0] == start && p@.last() == end),
            (r matches Some(p) ==> forall|i: int|
                1 <= i < p@.len() ==> !collision_map.blocked().contains(#[trigger] p@[i])),
            (r matches Some(p) ==> forall|i: int|
                0 <= i < p@.len() - 1 ==> one_step(#[trigger] p@[i], p@[i + 1])),
            (r matches Some(p) ==> forall|q: Seq<Coordinate>|
                valid_path(*collision_map, start, q) && q.last() == end ==> q.len() >= p@.len()),
    {
        let r = bfs_search(start, end, collision_map);
        proof {
            match r {
                Some(ref p) => lemma_route_shape(*collision_map, start, end, p@),
                None => {},
            }
        }
        r
    }
}

/// A found route read clause by clause: endpoints, no blocked tile after
/// the first, and one atomic move between neighbours — unfolded from
/// `valid_path` for callers that want the parts.
proof fn lemma_route_shape(
    map: CollisionMap,
    start: Coordinate,
    end: Coordinate,
    p: Seq<Coordinate>,
)
    requires
        valid_path(map, start, p),
        p.last() == end,
    ensures
        p.len() >= 1 && p[0] == start && p.last() == end,
        forall|i: int| 1 <= i < p.len() ==> !map.blocked().contains(#[trigger] p[i]),
        forall|i: int| 0 <= i < p.len() - 1 ==> one_step(#[trigger] p[i], p[i + 1]),
{
    assert forall|i: int| 1 <= i < p.len() implies !map.blocked().contains(#[trigger] p[i]) by {
        assert(step_ok(map, start, p, i - 1));
        assert(!map.blocked().contains(p[i - 1 + 1]));
    }
    assert forall|i: int| 0 <= i < p.len() - 1 implies one_step(#[trigger] p[i], p[i + 1]) by {
        assert(step_ok(map, start, p, i));
    }
}

} // verus!
