use tileworld::agent::select_first_reachable;
use tileworld::grid::Coord;
use tileworld::model::build_compatibility_model;
use tileworld::pathfind::find_path;
use tileworld::reservations::{ReservationManager, RequestOutcome};
use tileworld::worldgen::{generate_with_retry, World};

const BLOCKED: u16 = 9;

#[test]
fn first_reachable_candidate_wins() {
    // a wall isolates the left column; the first candidate sits behind it
    let world = World::new(
        4,
        3,
        vec![
            1, 9, 1, 1,
            1, 9, 1, 1,
            1, 9, 1, 1,
        ],
        BLOCKED,
    );
    let origin = Coord { x: 2, y: 0 };
    let candidates = vec![(Coord { x: 0, y: 0 }, 50u64), (Coord { x: 3, y: 2 }, 51u64)];
    let (j, path) = select_first_reachable(&world, origin, &candidates).expect("one is reachable");
    assert_eq!(j, 1);
    assert_eq!(*path.last().unwrap(), Coord { x: 3, y: 2 });
    assert_eq!(path.len(), 3);
}

#[test]
fn no_reachable_candidate_yields_none() {
    let world = World::new(
        3,
        1,
        vec![1, 9, 1],
        BLOCKED,
    );
    let origin = Coord { x: 0, y: 0 };
    let candidates = vec![(Coord { x: 2, y: 0 }, 1u64)];
    assert!(select_first_reachable(&world, origin, &candidates).is_none());
}

#[test]
fn full_gather_round_trip() {
    // generate a world, spawn a resource pool on it, find and claim the
    // nearest reachable resource, walk there, consume it
    let mut sample = Vec::new();
    for y in 0..4u16 {
        for x in 0..4u16 {
            sample.push((x + y) % 2);
        }
    }
    let m = build_compatibility_model(&sample, 4, 4, 3, 2);
    let tiles = generate_with_retry(8, 8, &m, 21, 50).expect("satisfiable");
    let world = World::new(8, 8, tiles, BLOCKED);

    let mut pool = ReservationManager::new();
    assert!(pool.add_resource(900, Coord { x: 6, y: 6 }));
    assert!(pool.add_resource(901, Coord { x: 2, y: 1 }));

    let origin = Coord { x: 0, y: 0 };
    let candidates = pool.nearest_k(origin, 10);
    assert_eq!(candidates[0].1, 901);

    let (j, path) = select_first_reachable(&world, origin, &candidates).expect("open world");
    let (target_pos, target_id) = candidates[j];
    assert_eq!(*path.last().unwrap(), target_pos);

    assert_eq!(pool.request_reservation(1, target_id), RequestOutcome::Granted);
    // the reserved target is invisible to other seekers
    for (_, id) in pool.nearest_k(origin, 10) {
        assert_ne!(id, target_id);
    }
    // the route agrees with a fresh query
    assert_eq!(find_path(&world, origin, target_pos).unwrap(), path);
    assert_eq!(pool.consume(target_id), Ok(()));
}
