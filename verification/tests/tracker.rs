//! Behavior of the chunk residency tracker over whole cycles: first cycle,
//! repeated cycles in one tile, moves, eviction, and registration.

use chunk_stream::{ChunkTracker, GridCoord, TileHandle};

fn coord(x: i64, z: i64) -> GridCoord {
    GridCoord { x, z }
}

fn handle(id: u64) -> TileHandle {
    TileHandle { id }
}

/// The nine coordinates around `t`, row-major from offset (-1,-1) to (1,1),
/// in the order the tracker promises.
fn ring(t: GridCoord) -> Vec<GridCoord> {
    vec![
        coord(t.x - 1, t.z - 1),
        coord(t.x - 1, t.z),
        coord(t.x - 1, t.z + 1),
        coord(t.x, t.z - 1),
        coord(t.x, t.z),
        coord(t.x, t.z + 1),
        coord(t.x + 1, t.z - 1),
        coord(t.x + 1, t.z),
        coord(t.x + 1, t.z + 1),
    ]
}

#[test]
fn fresh_tracker_is_empty() {
    let tracker = ChunkTracker::new(1000);
    assert_eq!(tracker.current_tile(), None);
    assert_eq!(tracker.resident_count(), 0);
    assert_eq!(tracker.chunk_size(), 1000);
}

#[test]
fn first_cycle_spawns_full_neighborhood() {
    let mut tracker = ChunkTracker::new(1000);
    let (spawn, despawn) = tracker.evaluate(0, 0);
    assert_eq!(spawn, ring(coord(0, 0)));
    assert_eq!(despawn, Vec::new());
    assert_eq!(tracker.current_tile(), Some(coord(0, 0)));
    assert_eq!(tracker.resident_count(), 0);
}

#[test]
fn same_tile_second_call_is_no_op() {
    let mut tracker = ChunkTracker::new(1000);
    let (spawn, _) = tracker.evaluate(-500, -500);
    assert_eq!(spawn.len(), 9);
    for (i, c) in spawn.iter().enumerate() {
        assert_eq!(tracker.register(*c, handle(i as u64)), None);
    }
    // (500, 500) truncates to the same tile (0, 0) as (-500, -500).
    let (spawn2, despawn2) = tracker.evaluate(500, 500);
    assert_eq!(spawn2, Vec::new());
    assert_eq!(despawn2, Vec::new());
    assert_eq!(tracker.resident_count(), 9);
    assert_eq!(tracker.current_tile(), Some(coord(0, 0)));
}

#[test]
fn same_tile_no_op_without_registration() {
    let mut tracker = ChunkTracker::new(1000);
    tracker.evaluate(10, 10);
    let (spawn, despawn) = tracker.evaluate(999, -999);
    assert_eq!(spawn, Vec::new());
    assert_eq!(despawn, Vec::new());
}

#[test]
fn truncation_is_asymmetric_around_origin() {
    let mut a = ChunkTracker::new(1000);
    a.evaluate(-500, -500);
    assert_eq!(a.current_tile(), Some(coord(0, 0)));

    let mut b = ChunkTracker::new(1000);
    b.evaluate(500, 500);
    assert_eq!(b.current_tile(), Some(coord(0, 0)));

    let mut c = ChunkTracker::new(1000);
    c.evaluate(-1500, 0);
    assert_eq!(c.current_tile(), Some(coord(-1, 0)));
}

#[test]
fn truncation_edge_positions() {
    let cases = [
        (999, 0, coord(0, 0)),
        (1000, 0, coord(1, 0)),
        (-999, 0, coord(0, 0)),
        (-1000, 0, coord(-1, 0)),
        (1999, 0, coord(1, 0)),
        (-1999, 0, coord(-1, 0)),
        (-2000, 0, coord(-2, 0)),
        (0, 2500, coord(0, 2)),
        (0, -2500, coord(0, -2)),
    ];
    for (vx, vz, want) in cases {
        let mut tracker = ChunkTracker::new(1000);
        tracker.evaluate(vx, vz);
        assert_eq!(tracker.current_tile(), Some(want), "position ({vx}, {vz})");
    }
}

#[test]
fn move_evicts_undesired_and_spawns_missing() {
    let mut tracker = ChunkTracker::new(1000);
    let (spawn, _) = tracker.evaluate(0, 0);
    let mut handles = Vec::new();
    for (i, c) in spawn.iter().enumerate() {
        let h = handle(100 + i as u64);
        assert_eq!(tracker.register(*c, h), None);
        handles.push((*c, h));
    }
    assert_eq!(tracker.resident_count(), 9);

    // Move two tiles east: the new tile is (2, 0).
    let (spawn2, despawn2) = tracker.evaluate(2500, 500);
    assert_eq!(tracker.current_tile(), Some(coord(2, 0)));

    // The column x == 1 stays; the columns x == -1 and x == 0 are evicted,
    // in registration (row-major) order, handles attached.
    let expected_despawn: Vec<(GridCoord, TileHandle)> = handles
        .iter()
        .filter(|(c, _)| c.x < 1)
        .cloned()
        .collect();
    assert_eq!(despawn2, expected_despawn);
    assert_eq!(despawn2.len(), 6);

    // The columns x == 2 and x == 3 are requested, in row-major order.
    let expected_spawn = vec![
        coord(2, -1),
        coord(2, 0),
        coord(2, 1),
        coord(3, -1),
        coord(3, 0),
        coord(3, 1),
    ];
    assert_eq!(spawn2, expected_spawn);

    // Eviction is eager: only the three kept tiles are still resident.
    assert_eq!(tracker.resident_count(), 3);
    for (c, h) in &handles {
        if c.x == 1 {
            assert_eq!(tracker.handle_of(*c), Some(*h));
        } else {
            assert_eq!(tracker.handle_of(*c), None);
        }
    }
}

#[test]
fn resident_and_spawn_cover_neighborhood_without_overlap() {
    let mut tracker = ChunkTracker::new(1000);
    let (spawn, _) = tracker.evaluate(0, 0);
    for (i, c) in spawn.iter().enumerate() {
        tracker.register(*c, handle(i as u64));
    }
    let (spawn2, _) = tracker.evaluate(1500, 500);
    let t = tracker.current_tile().unwrap();
    assert_eq!(t, coord(1, 0));
    for c in ring(t) {
        let resident = tracker.is_resident(c);
        let spawning = spawn2.contains(&c);
        assert!(resident ^ spawning, "tile {c:?} must be resident or spawning, not both");
    }
    assert_eq!(tracker.resident_count() + spawn2.len(), 9);
    for (i, c) in spawn2.iter().enumerate() {
        tracker.register(*c, handle(200 + i as u64));
    }
    assert_eq!(tracker.resident_count(), 9);
}

#[test]
fn spawn_skips_already_resident_tiles() {
    let mut tracker = ChunkTracker::new(1000);
    let pre = handle(7);
    assert_eq!(tracker.register(coord(0, 1), pre), None);
    let (spawn, despawn) = tracker.evaluate(0, 0);
    assert_eq!(spawn.len(), 8);
    assert!(!spawn.contains(&coord(0, 1)));
    assert_eq!(despawn, Vec::new());
    assert_eq!(tracker.handle_of(coord(0, 1)), Some(pre));
}

#[test]
fn first_cycle_evicts_tiles_outside_neighborhood() {
    let mut tracker = ChunkTracker::new(1000);
    let far = handle(42);
    tracker.register(coord(10, 10), far);
    let (spawn, despawn) = tracker.evaluate(0, 0);
    assert_eq!(spawn.len(), 9);
    assert_eq!(despawn, vec![(coord(10, 10), far)]);
    assert_eq!(tracker.resident_count(), 0);
}

#[test]
fn duplicate_registration_keeps_later_handle_and_reports() {
    let mut tracker = ChunkTracker::new(1000);
    let first = handle(1);
    let second = handle(2);
    assert_eq!(tracker.register(coord(5, 7), first), None);
    assert_eq!(tracker.register(coord(5, 7), second), Some(first));
    assert_eq!(tracker.resident_count(), 1);
    assert_eq!(tracker.handle_of(coord(5, 7)), Some(second));
}

#[test]
fn chunk_size_one_tracks_unit_tiles() {
    let mut tracker = ChunkTracker::new(1);
    let (spawn, _) = tracker.evaluate(3, -4);
    assert_eq!(tracker.current_tile(), Some(coord(3, -4)));
    for (i, c) in spawn.iter().enumerate() {
        tracker.register(*c, handle(i as u64));
    }
    // One step east: the column x == 2 leaves, the column x == 5 arrives.
    let (spawn2, despawn2) = tracker.evaluate(4, -4);
    assert_eq!(spawn2, vec![coord(5, -5), coord(5, -4), coord(5, -3)]);
    assert_eq!(despawn2.len(), 3);
    assert!(despawn2.iter().all(|(c, _)| c.x == 2));
    assert_eq!(tracker.resident_count(), 6);
}
