use tileworld::grid::Coord;
use tileworld::pathfind::find_path;
use tileworld::worldgen::World;
use std::collections::VecDeque;

const BLOCKED: u16 = 9;

fn world_from_rows(rows: &[&[u16]]) -> World {
    let height = rows.len();
    let width = rows[0].len();
    let mut tiles = Vec::new();
    for row in rows {
        assert_eq!(row.len(), width);
        tiles.extend_from_slice(row);
    }
    World::new(width, height, tiles, BLOCKED)
}

fn open_world(width: usize, height: usize) -> World {
    World::new(width, height, vec![1u16; width * height], BLOCKED)
}

/// Unweighted breadth-first search over the same walkability predicate,
/// returning the number of steps from start to goal.
fn bfs_steps(world: &World, start: Coord, goal: Coord) -> Option<usize> {
    let w = world.width;
    let h = world.height;
    if !world.walkable(start) || !world.walkable(goal) {
        return None;
    }
    let mut dist = vec![usize::MAX; w * h];
    let mut queue = VecDeque::new();
    dist[start.y * w + start.x] = 0;
    queue.push_back(start);
    while let Some(c) = queue.pop_front() {
        let d = dist[c.y * w + c.x];
        if c == goal {
            return Some(d);
        }
        let mut neighbors = Vec::new();
        if c.y + 1 < h {
            neighbors.push(Coord { x: c.x, y: c.y + 1 });
        }
        if c.y > 0 {
            neighbors.push(Coord { x: c.x, y: c.y - 1 });
        }
        if c.x + 1 < w {
            neighbors.push(Coord { x: c.x + 1, y: c.y });
        }
        if c.x > 0 {
            neighbors.push(Coord { x: c.x - 1, y: c.y });
        }
        for b in neighbors {
            if world.walkable(b) && dist[b.y * w + b.x] == usize::MAX {
                dist[b.y * w + b.x] = d + 1;
                queue.push_back(b);
            }
        }
    }
    None
}

fn assert_valid_path(world: &World, start: Coord, goal: Coord, path: &[Coord]) {
    let mut prev = start;
    for &c in path {
        assert!(world.walkable(c), "path runs through a blocked cell: {:?}", c);
        let dx = prev.x.abs_diff(c.x);
        let dy = prev.y.abs_diff(c.y);
        assert_eq!(dx + dy, 1, "non-adjacent step {:?} -> {:?}", prev, c);
        prev = c;
    }
    if path.is_empty() {
        assert_eq!(start, goal);
    } else {
        assert_eq!(*path.last().unwrap(), goal);
    }
}

#[test]
fn detour_around_center_block_is_eight_steps() {
    // 5 x 5 grid with a 2 x 2 impassable block in the middle
    let world = world_from_rows(&[
        &[1, 1, 1, 1, 1],
        &[1, 1, 1, 1, 1],
        &[1, 1, 9, 9, 1],
        &[1, 1, 9, 9, 1],
        &[1, 1, 1, 1, 1],
    ]);
    let start = Coord { x: 0, y: 0 };
    let goal = Coord { x: 4, y: 4 };
    let path = find_path(&world, start, goal).expect("a detour exists");
    assert_eq!(path.len(), 8);
    assert_valid_path(&world, start, goal, &path);
}

#[test]
fn path_length_matches_independent_bfs() {
    let world = world_from_rows(&[
        &[1, 9, 1, 1, 1, 1],
        &[1, 9, 1, 9, 9, 1],
        &[1, 9, 1, 1, 9, 1],
        &[1, 1, 1, 9, 9, 1],
        &[9, 9, 1, 9, 1, 1],
        &[1, 1, 1, 1, 1, 9],
    ]);
    for sy in 0..6 {
        for gy in 0..6 {
            let start = Coord { x: 0, y: sy };
            let goal = Coord { x: 5, y: gy };
            let expect = bfs_steps(&world, start, goal);
            let got = find_path(&world, start, goal).map(|p| {
                assert_valid_path(&world, start, goal, &p);
                p.len()
            });
            assert_eq!(got, expect, "start {:?} goal {:?}", start, goal);
        }
    }
}

#[test]
fn unreachable_goal_yields_none() {
    // a solid wall cuts the grid in two
    let world = world_from_rows(&[
        &[1, 1, 9, 1, 1],
        &[1, 1, 9, 1, 1],
        &[1, 1, 9, 1, 1],
    ]);
    let r = find_path(&world, Coord { x: 0, y: 0 }, Coord { x: 4, y: 2 });
    assert!(r.is_none());
}

#[test]
fn start_equals_goal_yields_empty_path() {
    let world = open_world(3, 3);
    let r = find_path(&world, Coord { x: 1, y: 1 }, Coord { x: 1, y: 1 });
    assert_eq!(r, Some(vec![]));
}

#[test]
fn blocked_or_out_of_bounds_endpoints_yield_none() {
    let world = world_from_rows(&[
        &[9, 1, 1],
        &[1, 1, 1],
    ]);
    assert!(find_path(&world, Coord { x: 0, y: 0 }, Coord { x: 2, y: 1 }).is_none());
    assert!(find_path(&world, Coord { x: 1, y: 0 }, Coord { x: 0, y: 0 }).is_none());
    assert!(find_path(&world, Coord { x: 1, y: 0 }, Coord { x: 7, y: 7 }).is_none());
}

#[test]
fn straight_line_is_manhattan_optimal() {
    let world = open_world(6, 1);
    let path = find_path(&world, Coord { x: 0, y: 0 }, Coord { x: 5, y: 0 }).unwrap();
    assert_eq!(path.len(), 5);
    assert_eq!(
        path,
        vec![
            Coord { x: 1, y: 0 },
            Coord { x: 2, y: 0 },
            Coord { x: 3, y: 0 },
            Coord { x: 4, y: 0 },
            Coord { x: 5, y: 0 },
        ]
    );
}
