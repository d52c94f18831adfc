use osrs_pathfinder::search::{check_successor, get_successors};
use osrs_pathfinder::{CollisionMap, Coordinate, Pathfinder};

fn coord(x: i32, y: i32, plane: i32) -> Coordinate {
    Coordinate { x, y, plane }
}

#[test]
fn empty_map_blocks_nothing() {
    let map = CollisionMap::new();
    assert!(!map.is_blocked(&coord(0, 0, 0)));
    assert!(!map.is_blocked(&coord(-5, 17, 3)));
}

#[test]
fn set_blocked_marks_only_that_tile() {
    let mut map = CollisionMap::new();
    map.set_blocked(coord(2, 3, 0), 1);
    assert!(map.is_blocked(&coord(2, 3, 0)));
    assert!(!map.is_blocked(&coord(3, 2, 0)));
    assert!(!map.is_blocked(&coord(2, 3, 1)));
    assert!(!map.is_blocked(&coord(-2, -3, 0)));
}

#[test]
fn set_blocked_twice_stays_blocked() {
    let mut map = CollisionMap::new();
    map.set_blocked(coord(1, 1, 0), 1);
    map.set_blocked(coord(1, 1, 0), 2);
    assert!(map.is_blocked(&coord(1, 1, 0)));
}

#[test]
fn successors_follow_fixed_direction_order() {
    let map = CollisionMap::new();
    let own = coord(0, 0, 0);
    let start = coord(0, 0, 0);
    let successors = get_successors(&own, &start, &map);
    let expected = vec![
        coord(-1, 0, 0),
        coord(1, 0, 0),
        coord(0, -1, 0),
        coord(0, 1, 0),
        coord(-1, -1, 0),
        coord(1, -1, 0),
        coord(-1, 1, 0),
        coord(1, 1, 0),
    ];
    assert_eq!(successors, expected);
}

#[test]
fn successors_stay_within_one_step_on_same_plane() {
    let map = CollisionMap::new();
    let own = coord(7, -4, 2);
    let start = coord(0, 0, 0);
    let successors = get_successors(&own, &start, &map);
    assert_eq!(successors.len(), 8);
    for s in &successors {
        assert!((s.x - own.x).abs() <= 1);
        assert!((s.y - own.y).abs() <= 1);
        assert!(!(s.x == own.x && s.y == own.y));
        assert_eq!(s.plane, own.plane);
    }
}

#[test]
fn successors_outside_window_are_empty() {
    let map = CollisionMap::new();
    let start = coord(0, 0, 0);
    assert!(get_successors(&coord(65, 0, 0), &start, &map).is_empty());
    assert!(get_successors(&coord(0, -65, 0), &start, &map).is_empty());
    assert!(get_successors(&coord(200, 200, 0), &start, &map).is_empty());
    // the window edge itself still expands
    assert_eq!(get_successors(&coord(64, 0, 0), &start, &map).len(), 8);
}

#[test]
fn blocked_tile_is_never_a_successor() {
    let mut map = CollisionMap::new();
    map.set_blocked(coord(1, 0, 0), 1);
    let successors = get_successors(&coord(0, 0, 0), &coord(0, 0, 0), &map);
    assert_eq!(successors.len(), 7);
    assert!(!successors.contains(&coord(1, 0, 0)));
}

#[test]
fn check_successor_appends_free_tile() {
    let map = CollisionMap::new();
    let mut successors = Vec::new();
    check_successor(&coord(5, 5, 1), &map, &mut successors, (0, 1));
    assert_eq!(successors, vec![coord(5, 6, 1)]);
}

#[test]
fn check_successor_skips_blocked_tile() {
    let mut map = CollisionMap::new();
    map.set_blocked(coord(5, 6, 1), 1);
    let mut successors = Vec::new();
    check_successor(&coord(5, 5, 1), &map, &mut successors, (0, 1));
    assert!(successors.is_empty());
}

#[test]
fn find_path_start_equals_end() {
    let finder = Pathfinder::new();
    let map = CollisionMap::new();
    let path = finder.find_path(coord(4, -7, 1), coord(4, -7, 1), &map);
    assert_eq!(path, Some(vec![coord(4, -7, 1)]));
}

#[test]
fn find_path_start_equals_end_even_when_blocked() {
    // the collision check gates successors only, never the initial tile
    let finder = Pathfinder::new();
    let mut map = CollisionMap::new();
    map.set_blocked(coord(0, 0, 0), 1);
    let path = finder.find_path(coord(0, 0, 0), coord(0, 0, 0), &map);
    assert_eq!(path, Some(vec![coord(0, 0, 0)]));
}

#[test]
fn straight_route_has_length_delta_x() {
    let finder = Pathfinder::new();
    let map = CollisionMap::new();
    let path = finder
        .find_path(coord(0, 0, 0), coord(3, 0, 0), &map)
        .expect("an open straight route must be found");
    assert_eq!(path.len(), 4);
    assert_eq!(
        path,
        vec![coord(0, 0, 0), coord(1, 0, 0), coord(2, 0, 0), coord(3, 0, 0)]
    );
}

#[test]
fn full_wall_leaves_no_route() {
    let finder = Pathfinder::new();
    let mut map = CollisionMap::new();
    // a wall across the whole window: every tile with x = 1 on plane 0
    for y in -70..=70 {
        map.set_blocked(coord(1, y, 0), 1);
    }
    let path = finder.find_path(coord(0, 0, 0), coord(2, 0, 0), &map);
    assert_eq!(path, None);
}

#[test]
fn gapped_wall_forces_a_detour() {
    let finder = Pathfinder::new();
    let mut map = CollisionMap::new();
    for y in -2..=2 {
        map.set_blocked(coord(1, y, 0), 1);
    }
    let path = finder
        .find_path(coord(0, 0, 0), coord(2, 0, 0), &map)
        .expect("a detour around the wall exists inside the window");
    assert_eq!(path[0], coord(0, 0, 0));
    assert_eq!(*path.last().unwrap(), coord(2, 0, 0));
    // shortest detour: three moves out to pass the wall at |y| = 3, three back
    assert_eq!(path.len(), 7);
    // the route touches no blocked tile and moves one step at a time
    for w in path.windows(2) {
        assert!((w[1].x - w[0].x).abs() <= 1);
        assert!((w[1].y - w[0].y).abs() <= 1);
        assert_eq!(w[0].plane, w[1].plane);
        assert!(!map.is_blocked(&w[1]));
    }
    // and repeats no tile
    for i in 0..path.len() {
        for j in (i + 1)..path.len() {
            assert_ne!(path[i], path[j]);
        }
    }
}

#[test]
fn goal_outside_window_is_unreachable() {
    let finder = Pathfinder::new();
    let map = CollisionMap::new();
    let path = finder.find_path(coord(0, 0, 0), coord(100, 0, 0), &map);
    assert_eq!(path, None);
}

#[test]
fn goal_on_other_plane_is_unreachable() {
    // horizontal movement never changes plane
    let finder = Pathfinder::new();
    let map = CollisionMap::new();
    let path = finder.find_path(coord(0, 0, 0), coord(1, 0, 1), &map);
    assert_eq!(path, None);
}

#[test]
fn smart_route_matches_the_bounded_route() {
    let finder = Pathfinder::new();
    let mut map = CollisionMap::new();
    map.set_blocked(coord(1, 0, 0), 1);
    let a = finder.find_path(coord(0, 0, 0), coord(4, 2, 0), &map);
    let b = finder.find_path_smart(coord(0, 0, 0), coord(4, 2, 0), &map);
    assert_eq!(a, b);
    assert!(a.is_some());
}

#[test]
fn diagonal_moves_cut_corners() {
    // a diagonal move is gated only by its destination tile, not by the
    // two flanking orthogonal tiles
    let finder = Pathfinder::new();
    let mut map = CollisionMap::new();
    map.set_blocked(coord(1, 0, 0), 1);
    map.set_blocked(coord(0, 1, 0), 1);
    let path = finder
        .find_path(coord(0, 0, 0), coord(1, 1, 0), &map)
        .expect("the diagonal step itself is open");
    assert_eq!(path, vec![coord(0, 0, 0), coord(1, 1, 0)]);
}
