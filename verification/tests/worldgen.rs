use tileworld::model::build_compatibility_model;
use tileworld::worldgen::{generate, generate_with_retry, GenError};
use tileworld::grid::Dir;
use rand::SeedableRng;

fn nine_tile_sample() -> Vec<u16> {
    vec![0, 1, 2, 3, 4, 5, 6, 7, 8]
}

#[test]
fn model_records_observed_adjacencies() {
    // 2 x 1 sample: [0, 1], out of bounds reads as the sentinel 2
    let sample = vec![0u16, 1u16];
    let m = build_compatibility_model(&sample, 2, 1, 3, 2);
    assert!(m.allows_tiles(0, Dir::East, 1));
    assert!(m.allows_tiles(1, Dir::West, 0));
    assert!(m.allows_tiles(0, Dir::West, 2));
    assert!(m.allows_tiles(1, Dir::East, 2));
    assert!(m.allows_tiles(0, Dir::North, 2));
    assert!(m.allows_tiles(0, Dir::South, 2));
    assert!(!m.allows_tiles(0, Dir::East, 0));
    assert!(!m.allows_tiles(0, Dir::East, 2));
    assert!(!m.allows_tiles(1, Dir::East, 0));
    assert!(m.is_live(0));
    assert!(m.is_live(1));
    // the sentinel is never a live tile
    assert!(!m.is_live(2));
}

#[test]
fn generated_grid_is_adjacency_sound() {
    // a 4 x 4 two-tile checkerboard sample; sentinel is 2
    let mut sample = Vec::new();
    for y in 0..4u16 {
        for x in 0..4u16 {
            sample.push((x + y) % 2);
        }
    }
    let m = build_compatibility_model(&sample, 4, 4, 3, 2);
    let mut rng = rand_chacha::ChaCha8Rng::seed_from_u64(11);
    let g = generate(6, 6, &m, &mut rng).expect("checkerboard model is satisfiable");
    assert_eq!(g.len(), 36);
    for y in 0..6usize {
        for x in 0..6usize {
            let t = g[y * 6 + x];
            assert!(m.is_live(t));
            if x + 1 < 6 {
                assert!(m.allows_tiles(t, Dir::East, g[y * 6 + x + 1]));
                assert!(m.allows_tiles(g[y * 6 + x + 1], Dir::West, t));
            }
            if y + 1 < 6 {
                assert!(m.allows_tiles(t, Dir::North, g[(y + 1) * 6 + x]));
                assert!(m.allows_tiles(g[(y + 1) * 6 + x], Dir::South, t));
            }
        }
    }
}

#[test]
fn unique_sample_is_reproduced_exactly() {
    // 3 x 3 sample of nine distinct tiles: its adjacencies admit exactly one
    // assignment of the same dimensions, the sample itself
    let sample = nine_tile_sample();
    let m = build_compatibility_model(&sample, 3, 3, 10, 9);
    let g = generate_with_retry(3, 3, &m, 5, 400).expect("sample model is satisfiable");
    assert_eq!(g, sample);
}

#[test]
fn retry_succeeds_on_satisfiable_model() {
    let sample = nine_tile_sample();
    let m = build_compatibility_model(&sample, 3, 3, 10, 9);
    // several seeds, all must eventually succeed within the budget
    for seed in 0..5u64 {
        let g = generate_with_retry(3, 3, &m, seed, 400).expect("satisfiable model");
        assert_eq!(g.len(), 9);
    }
}

#[test]
fn identical_seeds_reproduce_identical_worlds() {
    let mut sample = Vec::new();
    for y in 0..4u16 {
        for x in 0..4u16 {
            sample.push((x + y) % 2);
        }
    }
    let m = build_compatibility_model(&sample, 4, 4, 3, 2);
    let a = generate_with_retry(8, 8, &m, 77, 50).expect("satisfiable");
    let b = generate_with_retry(8, 8, &m, 77, 50).expect("satisfiable");
    assert_eq!(a, b);
}

#[test]
fn unsatisfiable_model_exhausts_retries() {
    // a 1 x 1 sample: the lone tile may only border the sentinel, so any
    // wider grid contradicts on every attempt
    let sample = vec![0u16];
    let m = build_compatibility_model(&sample, 1, 1, 2, 1);
    let r = generate_with_retry(2, 1, &m, 3, 10);
    assert_eq!(r, Err(GenError::GenerationExhausted));
}

#[test]
fn single_cell_grid_collapses_trivially() {
    let sample = vec![0u16];
    let m = build_compatibility_model(&sample, 1, 1, 2, 1);
    let g = generate_with_retry(1, 1, &m, 0, 5).expect("one cell, one tile");
    assert_eq!(g, vec![0u16]);
}

#[test]
fn single_cell_grid_succeeds_on_first_attempt_with_any_live_tile() {
    // several live tiles: success is owed regardless of the drawn values,
    // so a single attempt must do
    let sample = nine_tile_sample();
    let m = build_compatibility_model(&sample, 3, 3, 10, 9);
    for seed in 0..8u64 {
        let mut rng = rand_chacha::ChaCha8Rng::seed_from_u64(seed);
        let g = generate(1, 1, &m, &mut rng).expect("one cell never contradicts");
        assert_eq!(g.len(), 1);
        assert!(m.is_live(g[0]));
    }
}
