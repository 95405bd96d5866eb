//! The compatibility model: for every tile value and grid direction, the set
//! of tile values allowed in the neighboring cell. A model is either supplied
//! directly or derived from a hand-authored sample grid by recording every
//! adjacency the sample exhibits, treating out-of-bounds as the designated
//! empty sentinel so that the sample's edges are constrained against the void.

use vstd::prelude::*;
use crate::grid::{filled, Dir};

verus! {

/// The per-direction allowed-neighbor relation over tile ids `0 .. n_tiles`,
/// together with which tiles occur at all and which id is the sentinel.
pub struct CompatibilityModel {
    /// Tile ids range over `0 .. n_tiles`.
    pub n_tiles: u16,
    /// The sentinel standing for "outside the grid"; never placed in a cell.
    pub empty_tile: u16,
    /// `present[t]` holds when tile `t` occurs in the universe the model was
    /// built from.
    pub present: Vec<bool>,
    /// Flattened relation: entry `row_index(n_tiles, a, d, b)` holds when `b`
    /// may stand in direction `d` of `a`.
    pub flat: Vec<bool>,
}

/// The flat index of the triple `(a, d, b)` in a model over `n_tiles` tiles.
pub open spec fn row_index(n_tiles: int, a: int, d: Dir, b: int) -> int {
    (4 * a + d.index_spec()) * n_tiles + b
}

/// Flat triple indexing stays inside the relation table.
pub proof fn lemma_row_index_bounds(n_tiles: int, a: int, d: Dir, b: int)
    requires
        0 <= a < n_tiles,
        0 <= b < n_tiles,
    ensures
        0 <= row_index(n_tiles, a, d, b) < 4 * n_tiles * n_tiles,
{
    assert(0 <= (4 * a + d.index_spec()) * n_tiles + b < 4 * n_tiles * n_tiles)
        by (nonlinear_arith)
        requires
            0 <= a < n_tiles,
            0 <= b < n_tiles,
            0 <= d.index_spec() < 4,
    ;
}

/// Flat triple indexing is injective on in-range triples.
pub proof fn lemma_row_index_injective(
    n_tiles: int,
    a1: int,
    d1: Dir,
    b1: int,
    a2: int,
    d2: Dir,
    b2: int,
)
    requires
        0 <= a1 < n_tiles,
        0 <= b1 < n_tiles,
        0 <= a2 < n_tiles,
        0 <= b2 < n_tiles,
        row_index(n_tiles, a1, d1, b1) == row_index(n_tiles, a2, d2, b2),
    ensures
        a1 == a2 && d1 == d2 && b1 == b2,
{
    assert(4 * a1 + d1.index_spec() == 4 * a2 + d2.index_spec() && b1 == b2)
        by (nonlinear_arith)
        requires
            0 <= b1 < n_tiles,
            0 <= b2 < n_tiles,
            0 <= d1.index_spec() < 4,
            0 <= d2.index_spec() < 4,
            (4 * a1 + d1.index_spec()) * n_tiles + b1 == (4 * a2 + d2.index_spec()) * n_tiles
                + b2,
    ;
    assert(a1 == a2 && d1.index_spec() == d2.index_spec());
    assert(d1 == d2) by {
        if d1 != d2 {
            assert(d1.index_spec() != d2.index_spec());
        }
    }
}

/// The partial sums and products that build up a flat triple index stay below
/// the table size.
pub proof fn lemma_row_index_partials(n_tiles: int, a: int, d: Dir, b: int)
    requires
        1 <= n_tiles,
        0 <= a < n_tiles,
        0 <= b < n_tiles,
    ensures
        4 * a <= 4 * a + d.index_spec(),
        4 * a + d.index_spec() <= (4 * a + d.index_spec()) * n_tiles,
        (4 * a + d.index_spec()) * n_tiles <= row_index(n_tiles, a, d, b),
        row_index(n_tiles, a, d, b) < 4 * n_tiles * n_tiles,
{
    assert(4 * a + d.index_spec() <= (4 * a + d.index_spec()) * n_tiles && (4 * a
        + d.index_spec()) * n_tiles + b < 4 * n_tiles * n_tiles) by (nonlinear_arith)
        requires
            1 <= n_tiles,
            0 <= a < n_tiles,
            0 <= b < n_tiles,
            0 <= d.index_spec() < 4,
    ;
}

impl CompatibilityModel {
    /// The shape every model keeps: the sentinel is a real id and the two
    /// tables cover exactly the id range.
    pub open spec fn wf(self) -> bool {
        &&& self.n_tiles >= 1
        &&& self.empty_tile < self.n_tiles
        &&& self.present@.len() == self.n_tiles
        &&& self.flat@.len() == 4 * (self.n_tiles as int) * (self.n_tiles as int)
    }

    /// Whether tile `b` may stand in direction `d` of tile `a`.
    pub open spec fn allows(self, a: int, d: Dir, b: int) -> bool
        recommends
            self.wf(),
            0 <= a < self.n_tiles,
            0 <= b < self.n_tiles,
    {
        self.flat@[row_index(self.n_tiles as int, a, d, b)]
    }

    /// Whether tile `t` occurs in the universe the model was built from.
    pub open spec fn tile_present(self, t: int) -> bool
        recommends
            self.wf(),
            0 <= t < self.n_tiles,
    {
        self.present@[t]
    }

    /// Whether tile `t` may be placed in a cell: a present, non-sentinel id.
    pub open spec fn live(self, t: int) -> bool
        recommends
            self.wf(),
    {
        &&& 0 <= t < self.n_tiles
        &&& t != self.empty_tile
        &&& self.tile_present(t)
    }

    /// Queries the allowed-neighbor relation.
    pub fn allows_tiles(&self, a: u16, d: Dir, b: u16) -> (r: bool)
        requires
            self.wf(),
            a < self.n_tiles,
            b < self.n_tiles,
        ensures
            r == self.allows(a as int, d, b as int),
    {
        let total = self.flat.len();
        proof {
            lemma_row_index_bounds(self.n_tiles as int, a as int, d, b as int);
            lemma_row_index_partials(self.n_tiles as int, a as int, d, b as int);
        }
        let n = self.n_tiles as usize;
        let i = (4 * (a as usize) + d.index()) * n + (b as usize);
        self.flat[i]
    }

    /// Queries whether tile `t` may be placed in a cell.
    pub fn is_live(&self, t: u16) -> (r: bool)
        requires
            self.wf(),
        ensures
            r == self.live(t as int),
    {
        t < self.n_tiles && t != self.empty_tile && self.present[t as usize]
    }
}

/// The tile seen one step in direction `d` from `(x, y)` of the sample, with
/// out-of-bounds positions reading as the empty sentinel.
pub open spec fn sample_step_value(
    sample: Seq<u16>,
    width: int,
    height: int,
    empty_tile: u16,
    x: int,
    y: int,
    d: Dir,
) -> u16 {
    let (x2, y2) = d.step_spec(x, y);
    if 0 <= x2 < width && 0 <= y2 < height {
        sample[y2 * width + x2]
    } else {
        empty_tile
    }
}

/// The sample exhibits tile `a` at `(x, y)` with tile `b` one step away in
/// direction `d`.
pub open spec fn observed_at(
    sample: Seq<u16>,
    width: int,
    height: int,
    empty_tile: u16,
    x: int,
    y: int,
    a: int,
    d: Dir,
    b: int,
) -> bool {
    &&& 0 <= x < width
    &&& 0 <= y < height
    &&& sample[y * width + x] == a
    &&& sample_step_value(sample, width, height, empty_tile, x, y, d) == b
}

/// The sample exhibits the adjacency `(a, d, b)` somewhere.
pub open spec fn observed(
    sample: Seq<u16>,
    width: int,
    height: int,
    empty_tile: u16,
    a: int,
    d: Dir,
    b: int,
) -> bool {
    exists|x: int, y: int| observed_at(sample, width, height, empty_tile, x, y, a, d, b)
}

/// The sample holds tile `t` at `(x, y)`.
pub open spec fn sample_has_at(sample: Seq<u16>, width: int, height: int, x: int, y: int, t: int) -> bool {
    &&& 0 <= x < width
    &&& 0 <= y < height
    &&& sample[y * width + x] == t
}

/// The sample holds tile `t` somewhere.
pub open spec fn sample_has(sample: Seq<u16>, width: int, height: int, t: int) -> bool {
    exists|x: int, y: int| sample_has_at(sample, width, height, x, y, t)
}

/// A step value read from a sample of in-range tiles is itself in range.
proof fn lemma_step_value_range(
    sample: Seq<u16>,
    width: int,
    height: int,
    empty_tile: u16,
    x: int,
    y: int,
    d: Dir,
    n_tiles: u16,
)
    requires
        1 <= width,
        1 <= height,
        sample.len() == width * height,
        forall|i: int| 0 <= i < sample.len() ==> sample[i] < n_tiles,
        empty_tile < n_tiles,
        0 <= x < width,
        0 <= y < height,
    ensures
        sample_step_value(sample, width, height, empty_tile, x, y, d) < n_tiles,
{
    let (x2, y2) = d.step_spec(x, y);
    if 0 <= x2 < width && 0 <= y2 < height {
        assert(0 <= y2 * width + x2 < width * height) by (nonlinear_arith)
            requires
                0 <= x2 < width,
                0 <= y2 < height,
        ;
    }
}

/// Reads the sample one step in direction `d` from `(x, y)`, with
/// out-of-bounds reading as the empty sentinel.
fn neighbor_value(
    sample: &Vec<u16>,
    width: usize,
    height: usize,
    empty_tile: u16,
    x: usize,
    y: usize,
    d: Dir,
) -> (r: u16)
    requires
        width >= 1,
        height >= 1,
        x < width,
        y < height,
        sample@.len() == width * height,
    ensures
        r == sample_step_value(
            sample@,
            width as int,
            height as int,
            empty_tile,
            x as int,
            y as int,
            d,
        ),
{
    let slen = sample.len();
    match d {
        Dir::North => if y + 1 < height {
            proof {
                assert(0 <= (y + 1) * (width as int) + x < width * height) by (nonlinear_arith)
                    requires
                        0 <= x < width,
                        0 <= y + 1 < height,
                ;
            }
            sample[(y + 1) * width + x]
        } else {
            empty_tile
        },
        Dir::South => if y > 0 {
            proof {
                assert(0 <= (y - 1) * (width as int) + x < width * height) by (nonlinear_arith)
                    requires
                        0 <= x < width,
                        0 <= y - 1 < height,
                ;
            }
            sample[(y - 1) * width + x]
        } else {
            empty_tile
        },
        Dir::East => if x + 1 < width {
            proof {
                assert(0 <= y * (width as int) + (x + 1) < width * height) by (nonlinear_arith)
                    requires
                        0 <= x + 1 < width,
                        0 <= y < height,
                ;
            }
            sample[y * width + (x + 1)]
        } else {
            empty_tile
        },
        Dir::West => if x > 0 {
            proof {
                assert(0 <= y * (width as int) + (x - 1) < width * height) by (nonlinear_arith)
                    requires
                        0 <= x - 1 < width,
                        0 <= y < height,
                ;
            }
            sample[y * width + (x - 1)]
        } else {
            empty_tile
        },
    }
}

/// Marks the adjacency `(a, d, b)` as allowed.
fn record_pair(flat: &mut Vec<bool>, n_tiles: u16, a: u16, d: Dir, b: u16)
    requires
        old(flat)@.len() == 4 * (n_tiles as int) * (n_tiles as int),
        a < n_tiles,
        b < n_tiles,
    ensures
        final(flat)@ == old(flat)@.update(row_index(n_tiles as int, a as int, d, b as int), true),
        final(flat)@.len() == old(flat)@.len(),
{
    let total = flat.len();
    proof {
        lemma_row_index_bounds(n_tiles as int, a as int, d, b as int);
        lemma_row_index_partials(n_tiles as int, a as int, d, b as int);
    }
    let n = n_tiles as usize;
    let i = (4 * (a as usize) + d.index()) * n + (b as usize);
    flat.set(i, true);
}

/// Derives a compatibility model from a reference sample grid: scans every
/// cell, and for each of the four directions records the tile observed one
/// step away, reading out-of-bounds as the empty sentinel. Deterministic in
/// the sample; the model allows exactly the adjacencies the sample exhibits.
pub fn build_compatibility_model(
    sample: &Vec<u16>,
    width: usize,
    height: usize,
    n_tiles: u16,
    empty_tile: u16,
) -> (m: CompatibilityModel)
    requires
        width >= 1,
        height >= 1,
        sample@.len() == width * height,
        n_tiles >= 1,
        empty_tile < n_tiles,
        forall|i: int| 0 <= i < sample@.len() ==> sample@[i] < n_tiles,
        4 * (n_tiles as int) * (n_tiles as int) <= usize::MAX,
    ensures
        m.wf(),
        m.n_tiles == n_tiles,
        m.empty_tile == empty_tile,
        forall|a: int, d: Dir, b: int|
            0 <= a < n_tiles && 0 <= b < n_tiles ==> (#[trigger] m.allows(a, d, b)
                <==> observed(sample@, width as int, height as int, empty_tile, a, d, b)),
        forall|t: int|
            0 <= t < n_tiles ==> (#[trigger] m.tile_present(t) <==> sample_has(
                sample@,
                width as int,
                height as int,
                t,
            )),
{
    let ghost sw = width as int;
    let ghost sh = height as int;
    let n = n_tiles as usize;
    let mut present: Vec<bool> = filled(false, n);
    proof {
        assert(4 * (n as int) * (n as int) >= 0) by (nonlinear_arith);
    }
    let nn = 4 * n * n;
    proof {
        assert(4 * n * n == 4 * (n_tiles as int) * (n_tiles as int));
    }
    let mut flat: Vec<bool> = filled(false, nn);
    proof {
        assert forall|a: int, d: Dir, b: int|
            0 <= a < n_tiles && 0 <= b < n_tiles implies !(#[trigger] flat@[row_index(
            n_tiles as int,
            a,
            d,
            b,
        )]) by {
            lemma_row_index_bounds(n_tiles as int, a, d, b);
        }
    }

    let mut y: usize = 0;
    while y < height
        invariant
            y <= height,
            width >= 1,
            height >= 1,
            sw == width as int,
            sh == height as int,
            n == n_tiles,
            n_tiles >= 1,
            empty_tile < n_tiles,
            sample@.len() == width * height,
            forall|i: int| 0 <= i < sample@.len() ==> sample@[i] < n_tiles,
            present@.len() == n,
            flat@.len() == 4 * (n_tiles as int) * (n_tiles as int),
            // soundness: every recorded adjacency was observed
            forall|a: int, d: Dir, b: int|
                0 <= a < n_tiles && 0 <= b < n_tiles && (#[trigger] flat@[row_index(
                    n_tiles as int,
                    a,
                    d,
                    b,
                )]) ==> observed(sample@, sw, sh, empty_tile, a, d, b),
            // completeness: every adjacency of a scanned row is recorded
            forall|xx: int, yy: int, d: Dir|
                0 <= xx < width && 0 <= yy < y ==> flat@[row_index(
                    n_tiles as int,
                    sample@[yy * sw + xx] as int,
                    d,
                    #[trigger] sample_step_value(sample@, sw, sh, empty_tile, xx, yy, d) as int,
                )],
            // present: sound and complete over scanned rows
            forall|t: int|
                0 <= t < n_tiles && present@[t] ==> sample_has(sample@, sw, sh, t),
            forall|xx: int, yy: int|
                0 <= xx < width && 0 <= yy < y ==> present@[#[trigger] sample@[yy * sw + xx] as int],
        decreases height - y,
    {
        let mut x: usize = 0;
        while x < width
            invariant
                x <= width,
                y < height,
                width >= 1,
                height >= 1,
                sw == width as int,
                sh == height as int,
                n == n_tiles,
                n_tiles >= 1,
                empty_tile < n_tiles,
                sample@.len() == width * height,
                forall|i: int| 0 <= i < sample@.len() ==> sample@[i] < n_tiles,
                present@.len() == n,
                flat@.len() == 4 * (n_tiles as int) * (n_tiles as int),
                forall|a: int, d: Dir, b: int|
                    0 <= a < n_tiles && 0 <= b < n_tiles && (#[trigger] flat@[row_index(
                        n_tiles as int,
                        a,
                        d,
                        b,
                    )]) ==> observed(sample@, sw, sh, empty_tile, a, d, b),
                forall|xx: int, yy: int, d: Dir|
                    0 <= xx < width && (0 <= yy < y || (yy == y && 0 <= xx < x)) ==> flat@[row_index(
                        n_tiles as int,
                        sample@[yy * sw + xx] as int,
                        d,
                        #[trigger] sample_step_value(sample@, sw, sh, empty_tile, xx, yy, d) as int,
                    )],
                forall|t: int|
                    0 <= t < n_tiles && present@[t] ==> sample_has(sample@, sw, sh, t),
                forall|xx: int, yy: int|
                    0 <= xx < width && (0 <= yy < y || (yy == y && 0 <= xx < x)) ==> present@[
                        #[trigger] sample@[yy * sw + xx] as int],
            decreases width - x,
        {
            proof {
                assert(0 <= (y as int) * sw + (x as int) < sw * sh) by (nonlinear_arith)
                    requires
                        0 <= x < sw,
                        0 <= y < sh,
                ;
            }
            let slen = sample.len();
            let a = sample[y * width + x];
            present.set(a as usize, true);
            proof {
                assert(sample_has_at(sample@, sw, sh, x as int, y as int, a as int));
            }
            let bn = neighbor_value(sample, width, height, empty_tile, x, y, Dir::North);
            let bs = neighbor_value(sample, width, height, empty_tile, x, y, Dir::South);
            let be = neighbor_value(sample, width, height, empty_tile, x, y, Dir::East);
            let bw = neighbor_value(sample, width, height, empty_tile, x, y, Dir::West);
            proof {
                assert(observed_at(sample@, sw, sh, empty_tile, x as int, y as int, a as int,
                    Dir::North, bn as int));
                assert(observed_at(sample@, sw, sh, empty_tile, x as int, y as int, a as int,
                    Dir::South, bs as int));
                assert(observed_at(sample@, sw, sh, empty_tile, x as int, y as int, a as int,
                    Dir::East, be as int));
                assert(observed_at(sample@, sw, sh, empty_tile, x as int, y as int, a as int,
                    Dir::West, bw as int));
                lemma_step_value_range(sample@, sw, sh, empty_tile, x as int, y as int,
                    Dir::North, n_tiles);
                lemma_step_value_range(sample@, sw, sh, empty_tile, x as int, y as int,
                    Dir::South, n_tiles);
                lemma_step_value_range(sample@, sw, sh, empty_tile, x as int, y as int,
                    Dir::East, n_tiles);
                lemma_step_value_range(sample@, sw, sh, empty_tile, x as int, y as int,
                    Dir::West, n_tiles);
            }
            let ghost flat0 = flat@;
            record_pair(&mut flat, n_tiles, a, Dir::North, bn);
            record_pair(&mut flat, n_tiles, a, Dir::South, bs);
            record_pair(&mut flat, n_tiles, a, Dir::East, be);
            record_pair(&mut flat, n_tiles, a, Dir::West, bw);
            proof {
                lemma_row_index_bounds(n_tiles as int, a as int, Dir::North, bn as int);
                lemma_row_index_bounds(n_tiles as int, a as int, Dir::South, bs as int);
                lemma_row_index_bounds(n_tiles as int, a as int, Dir::East, be as int);
                lemma_row_index_bounds(n_tiles as int, a as int, Dir::West, bw as int);
                assert(flat@[row_index(n_tiles as int, a as int, Dir::North, bn as int)]);
                assert(flat@[row_index(n_tiles as int, a as int, Dir::South, bs as int)]);
                assert(flat@[row_index(n_tiles as int, a as int, Dir::East, be as int)]);
                assert(flat@[row_index(n_tiles as int, a as int, Dir::West, bw as int)]);
                // only four in-range entries changed, each to an observed adjacency
                assert forall|aa: int, d: Dir, bb: int|
                    0 <= aa < n_tiles && 0 <= bb < n_tiles && flat@[row_index(
                        n_tiles as int,
                        aa,
                        d,
                        bb,
                    )] implies observed(sample@, sw, sh, empty_tile, aa, d, bb) by {
                    lemma_row_index_bounds(n_tiles as int, aa, d, bb);
                    if !flat0[row_index(n_tiles as int, aa, d, bb)] {
                        let ri = row_index(n_tiles as int, aa, d, bb);
                        if ri == row_index(n_tiles as int, a as int, Dir::North, bn as int) {
                            lemma_row_index_injective(n_tiles as int, aa, d, bb, a as int,
                                Dir::North, bn as int);
                        } else if ri == row_index(n_tiles as int, a as int, Dir::South, bs as int) {
                            lemma_row_index_injective(n_tiles as int, aa, d, bb, a as int,
                                Dir::South, bs as int);
                        } else if ri == row_index(n_tiles as int, a as int, Dir::East, be as int) {
                            lemma_row_index_injective(n_tiles as int, aa, d, bb, a as int,
                                Dir::East, be as int);
                        } else if ri == row_index(n_tiles as int, a as int, Dir::West, bw as int) {
                            lemma_row_index_injective(n_tiles as int, aa, d, bb, a as int,
                                Dir::West, bw as int);
                        }
                    }
                }
                // the freshly scanned cell is recorded in all four directions
                assert forall|xx: int, yy: int, d: Dir|
                    0 <= xx < width && (0 <= yy < y || (yy == y && 0 <= xx < x + 1)) implies flat@[
                    row_index(
                        n_tiles as int,
                        sample@[yy * sw + xx] as int,
                        d,
                        #[trigger] sample_step_value(sample@, sw, sh, empty_tile, xx, yy, d) as int,
                    )] by {
                    assert(0 <= yy * sw + xx < sw * sh) by (nonlinear_arith)
                        requires
                            0 <= xx < sw,
                            0 <= yy < sh,
                    ;
                    lemma_step_value_range(sample@, sw, sh, empty_tile, xx, yy, d, n_tiles);
                    let aa = sample@[yy * sw + xx] as int;
                    let bb = sample_step_value(sample@, sw, sh, empty_tile, xx, yy, d) as int;
                    lemma_row_index_bounds(n_tiles as int, aa, d, bb);
                    if yy == y && xx == x {
                        if d == Dir::North {
                            assert(flat@[row_index(n_tiles as int, a as int, Dir::North,
                                bn as int)]);
                        } else if d == Dir::South {
                            assert(flat@[row_index(n_tiles as int, a as int, Dir::South,
                                bs as int)]);
                        } else if d == Dir::East {
                            assert(flat@[row_index(n_tiles as int, a as int, Dir::East,
                                be as int)]);
                        } else {
                            assert(flat@[row_index(n_tiles as int, a as int, Dir::West,
                                bw as int)]);
                        }
                    }
                }
                // the scanned cell's tile is marked present
                assert forall|xx: int, yy: int|
                    0 <= xx < width && (0 <= yy < y || (yy == y && 0 <= xx < x + 1)) implies
                    present@[#[trigger] sample@[yy * sw + xx] as int] by {
                    assert(0 <= yy * sw + xx < sw * sh) by (nonlinear_arith)
                        requires
                            0 <= xx < sw,
                            0 <= yy < sh,
                    ;
                }
            }
            x = x + 1;
        }
        y = y + 1;
    }
    let m = CompatibilityModel { n_tiles, empty_tile, present, flat };
    proof {
        assert forall|a: int, d: Dir, b: int|
            0 <= a < n_tiles && 0 <= b < n_tiles implies (#[trigger] m.allows(a, d, b)
            <==> observed(sample@, sw, sh, empty_tile, a, d, b)) by {
            lemma_row_index_bounds(n_tiles as int, a, d, b);
            if observed(sample@, sw, sh, empty_tile, a, d, b) {
                let (x, yv): (int, int) = choose|x: int, yv: int|
                    observed_at(sample@, sw, sh, empty_tile, x, yv, a, d, b);
                assert(flat@[row_index(
                    n_tiles as int,
                    sample@[yv * sw + x] as int,
                    d,
                    sample_step_value(sample@, sw, sh, empty_tile, x, yv, d) as int,
                )]);
            }
        }
        assert forall|t: int| 0 <= t < n_tiles implies (#[trigger] m.tile_present(t)
            <==> sample_has(sample@, sw, sh, t)) by {
            if sample_has(sample@, sw, sh, t) {
                let (x, yv): (int, int) = choose|x: int, yv: int|
                    sample_has_at(sample@, sw, sh, x, yv, t);
                assert(0 <= yv * sw + x < sw * sh) by (nonlinear_arith)
                    requires
                        0 <= x < sw,
                        0 <= yv < sh,
                ;
                assert(present@[sample@[yv * sw + x] as int]);
            }
        }
    }
    m
}

} // verus!
