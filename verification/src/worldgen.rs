//! The grid-constraint solver: assigns one tile value to every cell of a grid
//! so that every adjacent pair of cells satisfies the compatibility model,
//! by repeated random collapse of a least-constrained cell and constraint
//! propagation, with contradiction detection and retry on failure.
//!
//! Propagation policy: whenever a cell's possibility set first shrinks to a
//! single tile — by collapse or by filtering — that cell is queued and its
//! constraint is propagated to its four neighbors in turn. This is slightly
//! stronger than propagating from chosen cells only, and it is what makes the
//! adjacency-soundness guarantee below hold of every successful run.

use vstd::prelude::*;
use crate::grid::{adjacent, cidx, dir_of, in_bounds, lemma_cidx_bounds, lemma_cidx_injective,
    cell_index, Coord, Dir};
use crate::model::CompatibilityModel;
use crate::rng::pick_below;

verus! {

/// How a generation run fails: a single attempt reaches an empty possibility
/// set (routine, recoverable by retry), or the whole retry budget is spent
/// (fatal; no usable grid exists).
#[derive(Clone, Copy, PartialEq, Eq, Structural, Debug)]
pub enum GenError {
    Contradiction,
    GenerationExhausted,
}

/// Every tile in the list `v` may stand in direction `d` of tile `t`.
pub open spec fn all_allowed(m: CompatibilityModel, t: u16, d: Dir, v: Vec<u16>) -> bool {
    forall|k: int| 0 <= k < v@.len() ==> m.allows(t as int, d, #[trigger] v@[k] as int)
}

/// Every element of `r` occurs in `s`.
pub open spec fn sub_elems(r: Vec<u16>, s: Vec<u16>) -> bool {
    forall|k: int| 0 <= k < r@.len() ==> s@.contains(#[trigger] r@[k])
}

/// The cell grid shape the solver maintains: one nonempty possibility list of
/// live tiles per cell.
pub open spec fn cells_wf(m: CompatibilityModel, w: int, h: int, cells: Seq<Vec<u16>>) -> bool {
    &&& cells.len() == w * h
    &&& forall|i: int|
        0 <= i < cells.len() ==> (#[trigger] cells[i])@.len() >= 1
    &&& forall|i: int, k: int|
        0 <= i < cells.len() && 0 <= k < cells[i]@.len() ==> m.live(#[trigger] cells[i]@[k] as int)
}

/// The cell at index `i` is resolved to a single tile.
pub open spec fn decided(cells: Seq<Vec<u16>>, i: int) -> bool {
    cells[i]@.len() == 1
}

/// The tile a decided cell is resolved to.
pub open spec fn tile_of(cells: Seq<Vec<u16>>, i: int) -> u16 {
    cells[i]@[0]
}

/// Every decided cell that is not still queued for propagation already
/// constrains each of its neighbors: everything a neighbor may still become is
/// allowed next to the decided tile.
pub open spec fn sound_except(
    m: CompatibilityModel,
    w: int,
    h: int,
    cells: Seq<Vec<u16>>,
    wl: Seq<Coord>,
) -> bool {
    forall|a: Coord, b: Coord|
        in_bounds(w, h, a) && in_bounds(w, h, b) && #[trigger] adjacent(a, b) && decided(
            cells,
            cidx(w, a),
        ) && !wl.contains(a) ==> all_allowed(
            m,
            tile_of(cells, cidx(w, a)),
            dir_of(a, b),
            cells[cidx(w, b)],
        )
}

/// In a fully resolved grid, every ordered pair of adjacent cells satisfies
/// the model's allowed-neighbor relation.
pub open spec fn generated_sound(m: CompatibilityModel, w: int, h: int, g: Seq<u16>) -> bool {
    forall|a: Coord, b: Coord|
        in_bounds(w, h, a) && in_bounds(w, h, b) && #[trigger] adjacent(a, b) ==> m.allows(
            g[cidx(w, a)] as int,
            dir_of(a, b),
            g[cidx(w, b)] as int,
        )
}

/// How many cells still hold more than one possibility.
pub open spec fn undecided_count(cells: Seq<Vec<u16>>) -> nat
    decreases cells.len(),
{
    if cells.len() == 0 {
        0
    } else {
        undecided_count(cells.drop_last()) + (if cells.last()@.len() > 1 {
            1nat
        } else {
            0nat
        })
    }
}

/// Replacing one cell moves the undecided count by exactly the difference the
/// replacement makes at that index.
proof fn lemma_undecided_update(cells: Seq<Vec<u16>>, i: int, v: Vec<u16>)
    requires
        0 <= i < cells.len(),
    ensures
        undecided_count(cells.update(i, v)) + (if cells[i]@.len() > 1 {
            1nat
        } else {
            0nat
        }) == undecided_count(cells) + (if v@.len() > 1 {
            1nat
        } else {
            0nat
        }),
    decreases cells.len(),
{
    let upd = cells.update(i, v);
    if i == cells.len() - 1 {
        assert(upd.drop_last() =~= cells.drop_last());
        assert(upd.last() == v);
    } else {
        assert(upd.drop_last() =~= cells.drop_last().update(i, v));
        assert(upd.last() == cells.last());
        lemma_undecided_update(cells.drop_last(), i, v);
    }
}


/// Appending to a sequence extends what it contains by exactly that element.
proof fn lemma_push_contains<T>(s: Seq<T>, x: T, y: T)
    ensures
        s.push(x).contains(y) <==> (s.contains(y) || y == x),
{
    if s.push(x).contains(y) {
        let j = choose|j: int| 0 <= j < s.push(x).len() && s.push(x)[j] == y;
        if j < s.len() {
            assert(s[j] == y);
        }
    }
    if s.contains(y) {
        let j = choose|j: int| 0 <= j < s.len() && s[j] == y;
        assert(s.push(x)[j] == y);
    }
    if y == x {
        assert(s.push(x)[s.len() as int] == y);
    }
}

/// A list of tiles drawn from an allowed list is itself allowed.
proof fn lemma_all_allowed_sub(m: CompatibilityModel, t: u16, d: Dir, r: Vec<u16>, s: Vec<u16>)
    requires
        all_allowed(m, t, d, s),
        sub_elems(r, s),
    ensures
        all_allowed(m, t, d, r),
{
    assert forall|k: int| 0 <= k < r@.len() implies m.allows(t as int, d, #[trigger] r@[k] as int)
        by {
        assert(s@.contains(r@[k]));
        let k0 = choose|k0: int| 0 <= k0 < s@.len() && s@[k0] == r@[k];
        assert(m.allows(t as int, d, s@[k0] as int));
    }
}

/// Keeps the tiles of `s` that may stand in direction `d` of tile `t`.
fn filter_allowed(m: &CompatibilityModel, t: u16, d: Dir, s: &Vec<u16>) -> (r: Vec<u16>)
    requires
        m.wf(),
        t < m.n_tiles,
        forall|k: int| 0 <= k < s@.len() ==> m.live(#[trigger] s@[k] as int),
    ensures
        r@.len() <= s@.len(),
        sub_elems(r, *s),
        all_allowed(*m, t, d, r),
{
    let mut r: Vec<u16> = Vec::new();
    let mut k: usize = 0;
    while k < s.len()
        invariant
            k <= s@.len(),
            m.wf(),
            t < m.n_tiles,
            forall|kk: int| 0 <= kk < s@.len() ==> m.live(#[trigger] s@[kk] as int),
            r@.len() <= k,
            sub_elems(r, *s),
            all_allowed(*m, t, d, r),
        decreases s@.len() - k,
    {
        let v = s[k];
        if m.allows_tiles(t, d, v) {
            r.push(v);
        }
        k = k + 1;
    }
    r
}

/// Copies a possibility list.
fn copy_list(v: &Vec<u16>) -> (r: Vec<u16>)
    ensures
        r@ == v@,
{
    let mut r: Vec<u16> = Vec::new();
    let mut k: usize = 0;
    while k < v.len()
        invariant
            k <= v@.len(),
            r@ == v@.subrange(0, k as int),
        decreases v@.len() - k,
    {
        r.push(v[k]);
        k = k + 1;
    }
    proof {
        assert(r@ =~= v@);
    }
    r
}

/// Intersects the possibility list of cell `b` with what the freshly decided
/// tile `t` of the adjacent cell `c` allows there. Queues `b` when it first
/// becomes decided; reports `false` on an emptied list.
fn process_neighbor(
    m: &CompatibilityModel,
    width: usize,
    height: usize,
    cells: &mut Vec<Vec<u16>>,
    wl: &mut Vec<Coord>,
    c: Coord,
    t: u16,
    b: Coord,
    d: Dir,
) -> (ok: bool)
    requires
        m.wf(),
        width >= 1,
        height >= 1,
        width * height <= usize::MAX,
        cells_wf(*m, width as int, height as int, old(cells)@),
        t < m.n_tiles,
        in_bounds(width as int, height as int, b),
        adjacent(c, b),
        d == dir_of(c, b),
    ensures
        !ok ==> final(cells)@ == old(cells)@ && final(wl)@ == old(wl)@,
        ok ==> {
            &&& cells_wf(*m, width as int, height as int, final(cells)@)
            &&& forall|i: int|
                0 <= i < old(cells)@.len() && i != cidx(width as int, b) ==> final(cells)@[i]
                    == old(cells)@[i]
            &&& all_allowed(*m, t, d, final(cells)@[cidx(width as int, b)])
            &&& sub_elems(final(cells)@[cidx(width as int, b)], old(cells)@[cidx(width as int, b)])
            &&& final(cells)@[cidx(width as int, b)]@.len() <= old(cells)@[cidx(
                width as int,
                b,
            )]@.len()
            &&& (old(cells)@[cidx(width as int, b)]@.len() == 1 ==> final(cells)@[cidx(
                width as int,
                b,
            )]@ == old(cells)@[cidx(width as int, b)]@)
            &&& undecided_count(final(cells)@) + final(wl)@.len() == undecided_count(old(cells)@)
                + old(wl)@.len()
            &&& undecided_count(final(cells)@) <= undecided_count(old(cells)@)
            &&& (forall|a: Coord| old(wl)@.contains(a) ==> final(wl)@.contains(a))
            &&& (forall|j: int|
                0 <= j < final(wl)@.len() ==> old(wl)@.contains(#[trigger] final(wl)@[j])
                    || final(wl)@[j] == b)
            &&& (forall|a: Coord|
                final(wl)@.contains(a) && !old(wl)@.contains(a) ==> a == b && decided(
                    final(cells)@,
                    cidx(width as int, b),
                ))
            &&& (old(cells)@[cidx(width as int, b)]@.len() > 1 && final(cells)@[cidx(
                width as int,
                b,
            )]@.len() == 1 ==> final(wl)@.contains(b))
        },
{
    let j = cell_index(width, height, b);
    let old_len = cells[j].len();
    let r = filter_allowed(m, t, d, &cells[j]);
    if r.len() == 0 {
        return false;
    }
    let new_len = r.len();
    let ghost cells0 = cells@;
    proof {
        lemma_undecided_update(cells@, j as int, r);
    }
    if new_len == 1 && old_len > 1 {
        wl.push(b);
    }
    cells.set(j, r);
    proof {
        assert(cells@ == cells0.update(j as int, r));
        assert forall|i: int, k: int|
            0 <= i < cells@.len() && 0 <= k < cells@[i]@.len() implies m.live(
            #[trigger] cells@[i]@[k] as int) by {
            if i == j as int {
                assert(cells0[i]@.contains(cells@[i]@[k]));
                let k0 = choose|k0: int| 0 <= k0 < cells0[i]@.len() && cells0[i]@[k0]
                    == cells@[i]@[k];
                assert(m.live(cells0[i]@[k0] as int));
            }
        }
        if old_len == 1 {
            assert(cells@[j as int]@.len() == 1);
            assert(cells0[j as int]@.contains(cells@[j as int]@[0]));
            let k0 = choose|k0: int| 0 <= k0 < cells0[j as int]@.len() && cells0[j as int]@[k0]
                == cells@[j as int]@[0];
            assert(k0 == 0);
            assert(cells@[j as int]@ =~= cells0[j as int]@);
        }
        // queue bookkeeping
        assert forall|a: Coord| old(wl)@.contains(a) implies wl@.contains(a) by {
            lemma_push_contains(old(wl)@, b, a);
        }
        assert forall|a: Coord|
            wl@.contains(a) && !old(wl)@.contains(a) implies a == b && decided(
            cells@,
            cidx(width as int, b),
        ) by {
            lemma_push_contains(old(wl)@, b, a);
        }
        assert forall|j2: int|
            0 <= j2 < wl@.len() implies old(wl)@.contains(#[trigger] wl@[j2]) || wl@[j2] == b by {
            if j2 < old(wl)@.len() {
                assert(old(wl)@[j2] == wl@[j2]);
            }
        }
        if old_len > 1 && new_len == 1 {
            assert(wl@.contains(b)) by {
                assert(wl@[wl@.len() - 1] == b);
            }
        }
    }
    true
}

/// Drains the propagation queue: pops a decided cell and filters each of its
/// four neighbors against its tile, queueing neighbors that become decided,
/// until the queue is empty or some possibility set empties (`false`).
fn propagate(
    m: &CompatibilityModel,
    width: usize,
    height: usize,
    cells: &mut Vec<Vec<u16>>,
    wl_in: Vec<Coord>,
) -> (ok: bool)
    requires
        m.wf(),
        width >= 1,
        height >= 1,
        width * height <= usize::MAX,
        cells_wf(*m, width as int, height as int, old(cells)@),
        forall|j: int|
            0 <= j < wl_in@.len() ==> in_bounds(width as int, height as int, #[trigger] wl_in@[j])
                && decided(old(cells)@, cidx(width as int, wl_in@[j])),
        sound_except(*m, width as int, height as int, old(cells)@, wl_in@),
    ensures
        cells_wf(*m, width as int, height as int, final(cells)@),
        undecided_count(final(cells)@) <= undecided_count(old(cells)@),
        ok ==> sound_except(
            *m,
            width as int,
            height as int,
            final(cells)@,
            Seq::<Coord>::empty(),
        ),
        // a single-cell grid has no neighbors to constrain, so nothing empties
        width == 1 && height == 1 ==> ok,
{
    let ghost w = width as int;
    let ghost h = height as int;
    let mut wl = wl_in;
    loop
        invariant
            m.wf(),
            width >= 1,
            height >= 1,
            width * height <= usize::MAX,
            w == width as int,
            h == height as int,
            cells_wf(*m, w, h, cells@),
            forall|j: int|
                0 <= j < wl@.len() ==> in_bounds(w, h, #[trigger] wl@[j]) && decided(
                    cells@,
                    cidx(w, wl@[j]),
                ),
            sound_except(*m, w, h, cells@, wl@),
            undecided_count(cells@) <= undecided_count(old(cells)@),
        decreases wl@.len() + undecided_count(cells@),
    {
        let ghost wl_prev = wl@;
        let popped = wl.pop();
        let c = match popped {
            Some(c) => c,
            None => {
                proof {
                    assert(wl@ =~= Seq::<Coord>::empty());
                    assert forall|a: Coord, b: Coord|
                        in_bounds(w, h, a) && in_bounds(w, h, b) && #[trigger] adjacent(a, b)
                            && decided(cells@, cidx(w, a)) && !Seq::<Coord>::empty().contains(a)
                        implies all_allowed(
                        *m,
                        tile_of(cells@, cidx(w, a)),
                        dir_of(a, b),
                        cells@[cidx(w, b)],
                    ) by {
                        assert(!wl@.contains(a));
                    }
                }
                return true;
            },
        };
        proof {
            assert(wl_prev =~= wl@.push(c));
            assert(in_bounds(w, h, c) && decided(cells@, cidx(w, c))) by {
                assert(wl_prev[wl_prev.len() - 1] == c);
            }
            assert forall|j: int| 0 <= j < wl@.len() implies in_bounds(w, h, #[trigger] wl@[j])
                && decided(cells@, cidx(w, wl@[j])) by {
                assert(wl_prev[j] == wl@[j]);
            }
            assert(sound_except(*m, w, h, cells@, wl@.push(c)));
        }
        let i = cell_index(width, height, c);
        let t = cells[i][0];
        proof {
            assert(m.live(t as int));
        }
        let ghost cells_start = cells@;
        let ghost wl_start = wl@;
        let ghost sum_start = undecided_count(cells@) + wl@.len();

        // the four neighbors, clockwise from North
        let mut ok = true;
        let mut step: usize = 0;
        while step < 4
            invariant
                m.wf(),
                width >= 1,
                height >= 1,
                width * height <= usize::MAX,
                w == width as int,
                h == height as int,
                step <= 4,
                in_bounds(w, h, c),
                t < m.n_tiles,
                cells_wf(*m, w, h, cells@),
                // the popped cell keeps its decided tile
                decided(cells@, cidx(w, c)),
                tile_of(cells@, cidx(w, c)) == t,
                // queue entries are decided, in bounds
                forall|j: int|
                    0 <= j < wl@.len() ==> in_bounds(w, h, #[trigger] wl@[j]) && decided(
                        cells@,
                        cidx(w, wl@[j]),
                    ),
                // cells only ever shrink, element-wise
                forall|i2: int|
                    0 <= i2 < cells@.len() ==> sub_elems(#[trigger] cells@[i2], cells_start[i2])
                        && cells@[i2]@.len() <= cells_start[i2]@.len(),
                // decided cells stay decided with the same tile
                forall|i2: int|
                    0 <= i2 < cells@.len() && cells_start[i2]@.len() == 1 ==> cells@[i2]@
                        == cells_start[i2]@,
                // processed neighbors are fully constrained by t
                forall|dd: Dir|
                    dd.index_spec() < step ==> {
                        let (bx, by) = dd.step_spec(c.x as int, c.y as int);
                        (0 <= bx < w && 0 <= by < h) ==> all_allowed(
                            *m,
                            t,
                            dd,
                            cells@[cidx(w, Coord { x: bx as usize, y: by as usize })],
                        )
                    },
                // soundness, with the popped cell also excepted until its
                // propagation completes
                sound_except(*m, w, h, cells@, wl@.push(c)),
                // queue growth is matched by freshly decided cells
                undecided_count(cells@) + wl@.len() <= sum_start,
                undecided_count(cells@) <= undecided_count(old(cells)@),
                // new queue entries all stem from this propagation
                forall|a: Coord| wl_start.contains(a) ==> wl@.contains(a),
            decreases 4 - step,
        {
            let d = match step {
                0 => Dir::North,
                1 => Dir::South,
                2 => Dir::East,
                _ => Dir::West,
            };
            proof {
                assert(d.index_spec() == step as int);
            }
            let bo: Option<Coord> = match d {
                Dir::North => if c.y + 1 < height {
                    Some(Coord { x: c.x, y: c.y + 1 })
                } else {
                    None
                },
                Dir::South => if c.y > 0 {
                    Some(Coord { x: c.x, y: c.y - 1 })
                } else {
                    None
                },
                Dir::East => if c.x + 1 < width {
                    Some(Coord { x: c.x + 1, y: c.y })
                } else {
                    None
                },
                Dir::West => if c.x > 0 {
                    Some(Coord { x: c.x - 1, y: c.y })
                } else {
                    None
                },
            };
            match bo {
                None => {},
                Some(b) => {
                    proof {
                        assert(adjacent(c, b));
                        assert(d == dir_of(c, b));
                    }
                    let ghost cells_pre = cells@;
                    let ghost wl_pre = wl@;
                    let r_ok = process_neighbor(m, width, height, cells, &mut wl, c, t, b, d);
                    if !r_ok {
                        proof {
                            if width == 1 && height == 1 {
                                assert(in_bounds(w, h, b));
                                assert(c.x == 0 && c.y == 0 && b.x == 0 && b.y == 0);
                                assert(!adjacent(c, b));
                            }
                        }
                        return false;
                    }
                    proof {
                        let jb = cidx(w, b);
                        lemma_cidx_bounds(w, h, b);
                        lemma_cidx_bounds(w, h, c);
                        // c is not its own neighbor
                        assert(b != c);
                        if cidx(w, b) == cidx(w, c) {
                            lemma_cidx_injective(w, h, b, c);
                            assert(false);
                        }
                        // the queue still holds only decided, in-bounds cells
                        assert forall|j: int|
                            0 <= j < wl@.len() implies in_bounds(w, h, #[trigger] wl@[j])
                            && decided(cells@, cidx(w, wl@[j])) by {
                            let e = wl@[j];
                            assert(wl@.contains(e));
                            if wl_pre.contains(e) {
                                let j0 = choose|j0: int|
                                    0 <= j0 < wl_pre.len() && wl_pre[j0] == e;
                                assert(in_bounds(w, h, e) && decided(cells_pre, cidx(w, e)));
                                lemma_cidx_bounds(w, h, e);
                                if cidx(w, e) == jb {
                                    assert(cells@[jb]@ == cells_pre[jb]@);
                                } else {
                                    assert(cells@[cidx(w, e)] == cells_pre[cidx(w, e)]);
                                }
                            } else {
                                assert(e == b && decided(cells@, cidx(w, b)));
                            }
                        }
                        // re-establish: cells only shrink vs. cells_start
                        assert forall|i2: int|
                            0 <= i2 < cells@.len() implies sub_elems(
                            #[trigger] cells@[i2],
                            cells_start[i2],
                        ) && cells@[i2]@.len() <= cells_start[i2]@.len() by {
                            if i2 == jb {
                                assert(sub_elems(cells@[jb], cells_pre[jb]));
                                assert forall|k: int|
                                    0 <= k < cells@[i2]@.len() implies cells_start[i2]@.contains(
                                    #[trigger] cells@[i2]@[k]) by {
                                    assert(cells_pre[i2]@.contains(cells@[i2]@[k]));
                                    let k0 = choose|k0: int|
                                        0 <= k0 < cells_pre[i2]@.len() && cells_pre[i2]@[k0]
                                            == cells@[i2]@[k];
                                    assert(cells_start[i2]@.contains(cells_pre[i2]@[k0]));
                                }
                            }
                        }
                        // decided cells stay decided with the same tile
                        assert forall|i2: int|
                            0 <= i2 < cells@.len() && cells_start[i2]@.len() == 1 implies cells@[
                        i2]@ == cells_start[i2]@ by {
                            if i2 == jb {
                                assert(cells_pre[i2]@ == cells_start[i2]@);
                            }
                        }
                        // all earlier processed directions keep their guarantee
                        assert forall|dd: Dir| dd.index_spec() < step + 1 implies {
                            let (bx, by) = dd.step_spec(c.x as int, c.y as int);
                            (0 <= bx < w && 0 <= by < h) ==> all_allowed(
                                *m,
                                t,
                                dd,
                                cells@[cidx(w, Coord { x: bx as usize, y: by as usize })],
                            )
                        } by {
                            let (bx, by) = dd.step_spec(c.x as int, c.y as int);
                            if 0 <= bx < w && 0 <= by < h {
                                let bb = Coord { x: bx as usize, y: by as usize };
                                lemma_cidx_bounds(w, h, bb);
                                if dd == d {
                                    assert(bb == b);
                                    assert(all_allowed(*m, t, d, cells@[jb]));
                                } else if dd.index_spec() < step {
                                    // earlier neighbor: untouched by this step
                                    if cidx(w, bb) == jb {
                                        lemma_cidx_injective(w, h, bb, b);
                                        assert(dd == dir_of(c, bb));
                                        assert(false);
                                    }
                                    assert(cells@[cidx(w, bb)] == cells_pre[cidx(w, bb)]);
                                }
                            }
                        }
                        // soundness with c still excepted
                        assert forall|a: Coord, b2: Coord|
                            in_bounds(w, h, a) && in_bounds(w, h, b2) && #[trigger] adjacent(
                                a,
                                b2,
                            ) && decided(cells@, cidx(w, a)) && !wl@.push(c).contains(a) implies
                            all_allowed(
                            *m,
                            tile_of(cells@, cidx(w, a)),
                            dir_of(a, b2),
                            cells@[cidx(w, b2)],
                        ) by {
                            lemma_cidx_bounds(w, h, a);
                            lemma_cidx_bounds(w, h, b2);
                            let ia = cidx(w, a);
                            let ib2 = cidx(w, b2);
                            lemma_push_contains(wl@, c, a);
                            assert(a != c);
                            // a was not freshly queued, so it is not the
                            // fresh entry b (if any), hence decided before
                            assert(!wl_pre.push(c).contains(a)) by {
                                if wl_pre.push(c).contains(a) {
                                    let j0 = choose|j0: int|
                                        0 <= j0 < wl_pre.push(c).len() && wl_pre.push(c)[j0] == a;
                                    if j0 < wl_pre.len() {
                                        assert(wl@.contains(a)) by {
                                            assert(wl_pre[j0] == a);
                                            assert(wl@.contains(wl_pre[j0]));
                                        }
                                        assert(wl@.push(c).contains(a)) by {
                                            let j1 = choose|j1: int|
                                                0 <= j1 < wl@.len() && wl@[j1] == a;
                                            assert(wl@.push(c)[j1] == a);
                                        }
                                        assert(false);
                                    } else {
                                        assert(a == c);
                                        assert(false);
                                    }
                                }
                            }
                            if ia == jb {
                                lemma_cidx_injective(w, h, a, b);
                                // a == b: decided now; was it decided before?
                                if cells_pre[jb]@.len() != 1 {
                                    // freshly decided: it was queued just now
                                    assert(cells_pre[jb]@.len() > 1);
                                    assert(wl@.contains(b));
                                    assert(wl@.push(c).contains(a)) by {
                                        let j1 = choose|j1: int|
                                            0 <= j1 < wl@.len() && wl@[j1] == b;
                                        assert(wl@.push(c)[j1] == b);
                                    }
                                    assert(false);
                                } else {
                                    // decided before with the same tile
                                    assert(cells@[jb]@ == cells_pre[jb]@);
                                    assert(decided(cells_pre, ia));
                                    assert(all_allowed(
                                        *m,
                                        tile_of(cells_pre, ia),
                                        dir_of(a, b2),
                                        cells_pre[ib2],
                                    ));
                                    lemma_all_allowed_sub(
                                        *m,
                                        tile_of(cells_pre, ia),
                                        dir_of(a, b2),
                                        cells@[ib2],
                                        cells_pre[ib2],
                                    );
                                }
                            } else {
                                assert(cells@[ia] == cells_pre[ia]);
                                assert(decided(cells_pre, ia));
                                assert(all_allowed(
                                    *m,
                                    tile_of(cells_pre, ia),
                                    dir_of(a, b2),
                                    cells_pre[ib2],
                                ));
                                lemma_all_allowed_sub(
                                    *m,
                                    tile_of(cells_pre, ia),
                                    dir_of(a, b2),
                                    cells@[ib2],
                                    cells_pre[ib2],
                                );
                            }
                        }
                    }
                },
            }
            step = step + 1;
        }
        // after all four directions, c itself satisfies the soundness clause
        proof {
            assert forall|a: Coord, b2: Coord|
                in_bounds(w, h, a) && in_bounds(w, h, b2) && #[trigger] adjacent(a, b2) && decided(
                    cells@,
                    cidx(w, a),
                ) && !wl@.contains(a) implies all_allowed(
                *m,
                tile_of(cells@, cidx(w, a)),
                dir_of(a, b2),
                cells@[cidx(w, b2)],
            ) by {
                if a == c {
                    let dd = dir_of(c, b2);
                    let (bx, by) = dd.step_spec(c.x as int, c.y as int);
                    assert(bx == b2.x as int && by == b2.y as int);
                    assert(dd.index_spec() < 4);
                    assert(all_allowed(*m, t, dd, cells@[cidx(w, b2)]));
                } else {
                    assert(!wl@.push(c).contains(a)) by {
                        if wl@.push(c).contains(a) {
                            let j0 = choose|j0: int|
                                0 <= j0 < wl@.push(c).len() && wl@.push(c)[j0] == a;
                            if j0 < wl@.len() {
                                assert(wl@[j0] == a);
                                assert(wl@.contains(a));
                                assert(false);
                            } else {
                                assert(false);
                            }
                        }
                    }
                }
            }
        }
    }
}

/// The possibility-list length of the cell at `a`.
pub open spec fn cell_len(cells: Seq<Vec<u16>>, w: int, a: Coord) -> int {
    cells[cidx(w, a)]@.len() as int
}

/// Some in-bounds cell has a possibility list of length `sz`.
pub open spec fn has_size(cells: Seq<Vec<u16>>, w: int, h: int, sz: int) -> bool {
    exists|a: Coord| in_bounds(w, h, a) && #[trigger] cell_len(cells, w, a) == sz
}

/// Finds the smallest possibility-list size greater than one, or reports that
/// every cell is resolved.
fn find_smallest_open(cells: &Vec<Vec<u16>>, width: usize, height: usize) -> (r: Option<usize>)
    requires
        width >= 1,
        height >= 1,
        width * height <= usize::MAX,
        cells@.len() == width * height,
    ensures
        match r {
            None => forall|a: Coord|
                in_bounds(width as int, height as int, a) ==> #[trigger] cell_len(
                    cells@,
                    width as int,
                    a,
                ) <= 1,
            Some(sz) => sz >= 2 && has_size(cells@, width as int, height as int, sz as int)
                && forall|a: Coord|
                in_bounds(width as int, height as int, a) && #[trigger] cell_len(
                    cells@,
                    width as int,
                    a,
                ) > 1 ==> cell_len(cells@, width as int, a) >= sz,
        },
{
    let ghost w = width as int;
    let ghost h = height as int;
    let mut best: Option<usize> = None;
    let mut y: usize = 0;
    while y < height
        invariant
            y <= height,
            width >= 1,
            height >= 1,
            width * height <= usize::MAX,
            w == width as int,
            h == height as int,
            cells@.len() == width * height,
            match best {
                None => forall|a: Coord|
                    in_bounds(w, h, a) && a.y < y ==> #[trigger] cell_len(cells@, w, a) <= 1,
                Some(sz) => sz >= 2 && has_size(cells@, w, h, sz as int) && forall|a: Coord|
                    in_bounds(w, h, a) && a.y < y && #[trigger] cell_len(cells@, w, a) > 1
                        ==> cell_len(cells@, w, a) >= sz,
            },
        decreases height - y,
    {
        let mut x: usize = 0;
        while x < width
            invariant
                x <= width,
                y < height,
                width >= 1,
                height >= 1,
                width * height <= usize::MAX,
                w == width as int,
                h == height as int,
                cells@.len() == width * height,
                match best {
                    None => forall|a: Coord|
                        in_bounds(w, h, a) && (a.y < y || (a.y == y && a.x < x))
                            ==> #[trigger] cell_len(cells@, w, a) <= 1,
                    Some(sz) => sz >= 2 && has_size(cells@, w, h, sz as int) && forall|a: Coord|
                        in_bounds(w, h, a) && (a.y < y || (a.y == y && a.x < x))
                            && #[trigger] cell_len(cells@, w, a) > 1 ==> cell_len(cells@, w, a)
                            >= sz,
                },
            decreases width - x,
        {
            let c = Coord { x, y };
            let i = cell_index(width, height, c);
            let l = cells[i].len();
            let better = match best {
                None => l > 1,
                Some(sz) => l > 1 && l < sz,
            };
            if better {
                proof {
                    assert(cell_len(cells@, w, c) == l);
                }
                best = Some(l);
            }
            proof {
                assert(cell_len(cells@, w, c) == l);
            }
            x = x + 1;
        }
        y = y + 1;
    }
    best
}

/// Collects every cell whose possibility list has exactly the given size.
fn collect_ties(cells: &Vec<Vec<u16>>, width: usize, height: usize, sz: usize) -> (ties: Vec<
    Coord,
>)
    requires
        width >= 1,
        height >= 1,
        width * height <= usize::MAX,
        cells@.len() == width * height,
        has_size(cells@, width as int, height as int, sz as int),
    ensures
        ties@.len() >= 1,
        forall|j: int|
            0 <= j < ties@.len() ==> in_bounds(width as int, height as int, #[trigger] ties@[j])
                && cell_len(cells@, width as int, ties@[j]) == sz,
{
    let ghost w = width as int;
    let ghost h = height as int;
    let mut ties: Vec<Coord> = Vec::new();
    let mut y: usize = 0;
    while y < height
        invariant
            y <= height,
            width >= 1,
            height >= 1,
            width * height <= usize::MAX,
            w == width as int,
            h == height as int,
            cells@.len() == width * height,
            forall|j: int|
                0 <= j < ties@.len() ==> in_bounds(w, h, #[trigger] ties@[j]) && cell_len(
                    cells@,
                    w,
                    ties@[j],
                ) == sz,
            forall|a: Coord|
                in_bounds(w, h, a) && a.y < y && #[trigger] cell_len(cells@, w, a) == sz
                    ==> ties@.contains(a),
        decreases height - y,
    {
        let mut x: usize = 0;
        while x < width
            invariant
                x <= width,
                y < height,
                width >= 1,
                height >= 1,
                width * height <= usize::MAX,
                w == width as int,
                h == height as int,
                cells@.len() == width * height,
                forall|j: int|
                    0 <= j < ties@.len() ==> in_bounds(w, h, #[trigger] ties@[j]) && cell_len(
                        cells@,
                        w,
                        ties@[j],
                    ) == sz,
                forall|a: Coord|
                    in_bounds(w, h, a) && (a.y < y || (a.y == y && a.x < x))
                        && #[trigger] cell_len(cells@, w, a) == sz ==> ties@.contains(a),
            decreases width - x,
        {
            let c = Coord { x, y };
            let i = cell_index(width, height, c);
            let ghost ties_before = ties@;
            if cells[i].len() == sz {
                ties.push(c);
            }
            proof {
                assert(cell_len(cells@, w, c) == cells@[cidx(w, c)]@.len());
                assert forall|a: Coord|
                    in_bounds(w, h, a) && (a.y < y || (a.y == y && a.x < x + 1))
                        && #[trigger] cell_len(cells@, w, a) == sz implies ties@.contains(a) by {
                    if a.y < y || (a.y == y && a.x < x) {
                        if ties_before.contains(a) && ties@ != ties_before {
                            lemma_push_contains(ties_before, c, a);
                        }
                    } else {
                        assert(a == c);
                        assert(cell_len(cells@, w, c) == sz);
                        assert(ties@[ties@.len() - 1] == c);
                    }
                }
            }
            x = x + 1;
        }
        y = y + 1;
    }
    proof {
        let a = choose|a: Coord| in_bounds(w, h, a) && #[trigger] cell_len(cells@, w, a)
            == sz as int;
        assert(ties@.contains(a));
        assert(ties@.len() >= 1);
    }
    ties
}

/// Runs one full generation attempt: initializes every cell to the live tiles
/// of the model, then repeatedly collapses a least-constrained undecided cell
/// to one of its possibilities drawn from the seeded stream and propagates the
/// constraint, until the grid is resolved or a possibility set empties.
///
/// On success, the grid is adjacency-sound for the model: every ordered pair
/// of adjacent cells satisfies the allowed-neighbor relation, and no cell
/// holds the empty sentinel or a tile the model does not know.
///
/// A single-cell grid never fails when the model has a live tile: with no
/// neighbor to constrain it, the cell collapses to any of them — success owed
/// regardless of what the stream yields.
pub fn generate(
    width: usize,
    height: usize,
    m: &CompatibilityModel,
    rng: &mut rand_chacha::ChaCha8Rng,
) -> (r: Result<Vec<u16>, GenError>)
    requires
        m.wf(),
        width >= 1,
        height >= 1,
        width * height <= usize::MAX,
    ensures
        match r {
            Ok(g) => {
                &&& g@.len() == width * height
                &&& forall|i: int| 0 <= i < g@.len() ==> m.live(#[trigger] g@[i] as int)
                &&& generated_sound(*m, width as int, height as int, g@)
            },
            Err(e) => e == GenError::Contradiction,
        },
        width == 1 && height == 1 && (exists|t: int| m.live(t)) ==> r is Ok,
{
    let ghost w = width as int;
    let ghost h = height as int;
    let n = width * height;

    // the tiles a cell may hold: present in the model and not the sentinel
    let mut live_list: Vec<u16> = Vec::new();
    let mut t: usize = 0;
    let n_tiles = m.n_tiles as usize;
    while t < n_tiles
        invariant
            m.wf(),
            n_tiles == m.n_tiles,
            t <= n_tiles,
            forall|k: int| 0 <= k < live_list@.len() ==> m.live(#[trigger] live_list@[k] as int),
            forall|tt: int| 0 <= tt < t && m.live(tt) ==> live_list@.len() >= 1,
        decreases n_tiles - t,
    {
        if m.is_live(t as u16) {
            live_list.push(t as u16);
        }
        t = t + 1;
    }
    if live_list.len() == 0 {
        proof {
            // no live tile exists at all, or the list would not be empty
            if exists|t0: int| m.live(t0) {
                let t0 = choose|t0: int| m.live(t0);
                assert(0 <= t0 < m.n_tiles);
                assert(live_list@.len() >= 1);
                assert(false);
            }
        }
        return Err(GenError::Contradiction);
    }

    // every cell starts with the full live list
    let mut cells: Vec<Vec<u16>> = Vec::new();
    let mut i: usize = 0;
    while i < n
        invariant
            i <= n,
            cells@.len() == i,
            live_list@.len() >= 1,
            m.wf(),
            forall|k: int| 0 <= k < live_list@.len() ==> m.live(#[trigger] live_list@[k] as int),
            forall|i2: int| 0 <= i2 < i ==> (#[trigger] cells@[i2])@ == live_list@,
        decreases n - i,
    {
        cells.push(copy_list(&live_list));
        i = i + 1;
    }
    proof {
        assert(cells_wf(*m, w, h, cells@));
    }

    // cells that start out decided must propagate before any collapse
    let mut wl: Vec<Coord> = Vec::new();
    let mut y: usize = 0;
    while y < height
        invariant
            y <= height,
            width >= 1,
            height >= 1,
            w == width as int,
            h == height as int,
            width * height <= usize::MAX,
            cells@.len() == width * height,
            forall|j: int|
                0 <= j < wl@.len() ==> in_bounds(w, h, #[trigger] wl@[j]) && decided(
                    cells@,
                    cidx(w, wl@[j]),
                ),
            forall|a: Coord|
                in_bounds(w, h, a) && a.y < y && decided(cells@, #[trigger] cidx(w, a))
                    ==> wl@.contains(a),
        decreases height - y,
    {
        let mut x: usize = 0;
        while x < width
            invariant
                x <= width,
                y < height,
                width >= 1,
                height >= 1,
                w == width as int,
                h == height as int,
                width * height <= usize::MAX,
                cells@.len() == width * height,
                forall|j: int|
                    0 <= j < wl@.len() ==> in_bounds(w, h, #[trigger] wl@[j]) && decided(
                        cells@,
                        cidx(w, wl@[j]),
                    ),
                forall|a: Coord|
                    in_bounds(w, h, a) && (a.y < y || (a.y == y && a.x < x)) && decided(
                        cells@,
                        #[trigger] cidx(w, a),
                    ) ==> wl@.contains(a),
            decreases width - x,
        {
            let c = Coord { x, y };
            let i2 = cell_index(width, height, c);
            let ghost wl_before = wl@;
            if cells[i2].len() == 1 {
                wl.push(c);
            }
            proof {
                assert forall|a: Coord|
                    in_bounds(w, h, a) && (a.y < y || (a.y == y && a.x < x + 1)) && decided(
                        cells@,
                        #[trigger] cidx(w, a),
                    ) implies wl@.contains(a) by {
                    if a.y < y || (a.y == y && a.x < x) {
                        if wl_before.contains(a) && wl@ != wl_before {
                            lemma_push_contains(wl_before, c, a);
                        }
                    } else {
                        assert(a == c);
                        assert(decided(cells@, cidx(w, c)));
                        assert(wl@[wl@.len() - 1] == c);
                    }
                }
            }
            x = x + 1;
        }
        y = y + 1;
    }
    proof {
        assert forall|a: Coord, b: Coord|
            in_bounds(w, h, a) && in_bounds(w, h, b) && #[trigger] adjacent(a, b) && decided(
                cells@,
                cidx(w, a),
            ) && !wl@.contains(a) implies all_allowed(
            *m,
            tile_of(cells@, cidx(w, a)),
            dir_of(a, b),
            cells@[cidx(w, b)],
        ) by {
            assert(wl@.contains(a));
        }
    }
    if !propagate(m, width, height, &mut cells, wl) {
        return Err(GenError::Contradiction);
    }

    // collapse loop
    loop
        invariant
            m.wf(),
            width >= 1,
            height >= 1,
            w == width as int,
            h == height as int,
            width * height <= usize::MAX,
            n == width * height,
            cells_wf(*m, w, h, cells@),
            sound_except(*m, w, h, cells@, Seq::<Coord>::empty()),
        decreases undecided_count(cells@),
    {
        let picked = find_smallest_open(&cells, width, height);
        let sz = match picked {
            None => {
                // fully resolved: read the grid off
                let mut out: Vec<u16> = Vec::new();
                let mut k: usize = 0;
                while k < n
                    invariant
                        k <= n,
                        n == width * height,
                        cells@.len() == n,
                        forall|i2: int| 0 <= i2 < cells@.len() ==> (#[trigger] cells@[i2])@.len()
                            >= 1,
                        out@.len() == k,
                        forall|i2: int| 0 <= i2 < k ==> #[trigger] out@[i2] == tile_of(cells@, i2),
                    decreases n - k,
                {
                    let cl = &cells[k];
                    out.push(cl[0]);
                    k = k + 1;
                }
                proof {
                    assert forall|a: Coord, b: Coord|
                        in_bounds(w, h, a) && in_bounds(w, h, b) && #[trigger] adjacent(a, b)
                        implies m.allows(
                        out@[cidx(w, a)] as int,
                        dir_of(a, b),
                        out@[cidx(w, b)] as int,
                    ) by {
                        lemma_cidx_bounds(w, h, a);
                        lemma_cidx_bounds(w, h, b);
                        assert(cell_len(cells@, w, a) <= 1);
                        assert(decided(cells@, cidx(w, a)));
                        assert(!Seq::<Coord>::empty().contains(a));
                        assert(all_allowed(
                            *m,
                            tile_of(cells@, cidx(w, a)),
                            dir_of(a, b),
                            cells@[cidx(w, b)],
                        ));
                        assert(m.allows(
                            tile_of(cells@, cidx(w, a)) as int,
                            dir_of(a, b),
                            cells@[cidx(w, b)]@[0] as int,
                        ));
                    }
                    assert forall|i2: int| 0 <= i2 < out@.len() implies m.live(
                        #[trigger] out@[i2] as int) by {
                        assert(out@[i2] == cells@[i2]@[0]);
                    }
                }
                return Ok(out);
            },
            Some(sz) => sz,
        };
        let ties = collect_ties(&cells, width, height, sz);
        let pick = pick_below(rng, ties.len());
        let c = ties[pick];
        let i2 = cell_index(width, height, c);
        let k = pick_below(rng, sz);
        proof {
            assert(cell_len(cells@, w, c) == sz);
        }
        let cl = &cells[i2];
        let tile = cl[k];
        let mut single: Vec<u16> = Vec::new();
        single.push(tile);
        let ghost cells0 = cells@;
        proof {
            lemma_undecided_update(cells@, i2 as int, single);
        }
        cells.set(i2, single);
        let mut wl2: Vec<Coord> = Vec::new();
        wl2.push(c);
        proof {
            // the collapsed cell keeps a live tile
            assert(m.live(cells0[i2 as int]@[k as int] as int));
            assert forall|ii: int, kk: int|
                0 <= ii < cells@.len() && 0 <= kk < cells@[ii]@.len() implies m.live(
                #[trigger] cells@[ii]@[kk] as int) by {
                if ii != i2 as int {
                    assert(cells@[ii] == cells0[ii]);
                }
            }
            // worklist holds exactly the collapsed cell
            assert(wl2@ =~= Seq::<Coord>::empty().push(c));
            assert forall|j: int| 0 <= j < wl2@.len() implies in_bounds(w, h, #[trigger] wl2@[j])
                && decided(cells@, cidx(w, wl2@[j])) by {
                assert(wl2@[j] == c);
            }
            // soundness with the collapsed cell excepted
            assert forall|a: Coord, b: Coord|
                in_bounds(w, h, a) && in_bounds(w, h, b) && #[trigger] adjacent(a, b) && decided(
                    cells@,
                    cidx(w, a),
                ) && !wl2@.contains(a) implies all_allowed(
                *m,
                tile_of(cells@, cidx(w, a)),
                dir_of(a, b),
                cells@[cidx(w, b)],
            ) by {
                lemma_cidx_bounds(w, h, a);
                lemma_cidx_bounds(w, h, b);
                assert(wl2@[0] == c);
                assert(a != c) by {
                    if a == c {
                        assert(wl2@.contains(a));
                    }
                }
                if cidx(w, a) == cidx(w, c) {
                    lemma_cidx_injective(w, h, a, c);
                    assert(false);
                }
                assert(cells@[cidx(w, a)] == cells0[cidx(w, a)]);
                assert(decided(cells0, cidx(w, a)));
                assert(!Seq::<Coord>::empty().contains(a));
                assert(all_allowed(
                    *m,
                    tile_of(cells0, cidx(w, a)),
                    dir_of(a, b),
                    cells0[cidx(w, b)],
                ));
                if cidx(w, b) == i2 as int {
                    assert(sub_elems(cells@[i2 as int], cells0[i2 as int])) by {
                        assert(cells@[i2 as int]@[0] == cells0[i2 as int]@[k as int]);
                        assert(cells0[i2 as int]@.contains(cells@[i2 as int]@[0]));
                    }
                    lemma_all_allowed_sub(
                        *m,
                        tile_of(cells0, cidx(w, a)),
                        dir_of(a, b),
                        cells@[cidx(w, b)],
                        cells0[cidx(w, b)],
                    );
                } else {
                    assert(cells@[cidx(w, b)] == cells0[cidx(w, b)]);
                }
            }
            // the collapse resolved one more cell
            assert(undecided_count(cells@) + 1 == undecided_count(cells0));
        }
        let ghost und_after_collapse = undecided_count(cells@);
        if !propagate(m, width, height, &mut cells, wl2) {
            return Err(GenError::Contradiction);
        }
        proof {
            assert(undecided_count(cells@) <= und_after_collapse);
        }
    }
}

/// Calls `generate` with fresh state until it succeeds or the attempt budget
/// is exhausted; exhaustion is the fatal outcome, distinct from a routine
/// per-attempt contradiction.
///
/// The seed is the only source of variation, so a fixed seed reproduces a
/// fixed world at run time. That reproducibility is a property of the cipher
/// stream, exercised by tests; the contracts assume nothing of the drawn
/// values and so do not relate two runs to each other.
pub fn generate_with_retry(
    width: usize,
    height: usize,
    m: &CompatibilityModel,
    seed: u64,
    max_attempts: usize,
) -> (r: Result<Vec<u16>, GenError>)
    requires
        m.wf(),
        width >= 1,
        height >= 1,
        width * height <= usize::MAX,
        max_attempts >= 1,
    ensures
        match r {
            Ok(g) => {
                &&& g@.len() == width * height
                &&& forall|i: int| 0 <= i < g@.len() ==> m.live(#[trigger] g@[i] as int)
                &&& generated_sound(*m, width as int, height as int, g@)
            },
            Err(e) => e == GenError::GenerationExhausted,
        },
        width == 1 && height == 1 && (exists|t: int| m.live(t)) ==> r is Ok,
{
    let mut rng = crate::rng::rng_from_seed(seed);
    let mut attempt: usize = 0;
    while attempt < max_attempts
        invariant
            m.wf(),
            width >= 1,
            height >= 1,
            width * height <= usize::MAX,
            attempt >= 1 ==> !(width == 1 && height == 1 && (exists|t: int| m.live(t))),
        decreases max_attempts - attempt,
    {
        match generate(width, height, m, &mut rng) {
            Ok(g) => {
                return Ok(g);
            },
            Err(_) => {},
        }
        attempt = attempt + 1;
    }
    Err(GenError::GenerationExhausted)
}

/// A generated world: the resolved grid, its dimensions, and which tile value
/// counts as impassable for movement. Read-only to every consumer once built.
pub struct World {
    pub width: usize,
    pub height: usize,
    pub tiles: Vec<u16>,
    pub impassable: u16,
}

impl World {
    /// The shape every world keeps; the arithmetic headroom lets path search
    /// compute its cost bounds without overflow.
    pub open spec fn wf(self) -> bool {
        &&& self.width >= 1
        &&& self.height >= 1
        &&& self.tiles@.len() == self.width * self.height
        &&& self.width * self.height + self.width + self.height <= usize::MAX
    }

    /// The walkability predicate: in bounds and not the impassable sentinel.
    pub open spec fn walk(self, c: Coord) -> bool {
        &&& in_bounds(self.width as int, self.height as int, c)
        &&& self.tiles@[cidx(self.width as int, c)] != self.impassable
    }

    /// Wraps a resolved grid as a world.
    pub fn new(width: usize, height: usize, tiles: Vec<u16>, impassable: u16) -> (r: World)
        requires
            width >= 1,
            height >= 1,
            tiles@.len() == width * height,
            width * height + width + height <= usize::MAX,
        ensures
            r.wf(),
            r.width == width,
            r.height == height,
            r.tiles == tiles,
            r.impassable == impassable,
    {
        World { width, height, tiles, impassable }
    }

    /// Whether a path may pass through `c`.
    pub fn walkable(&self, c: Coord) -> (r: bool)
        requires
            self.wf(),
        ensures
            r == self.walk(c),
    {
        if c.x < self.width && c.y < self.height {
            let i = cell_index(self.width, self.height, c);
            self.tiles[i] != self.impassable
        } else {
            false
        }
    }

    /// Reads the tile value at an in-bounds cell.
    pub fn tile_at(&self, c: Coord) -> (r: u16)
        requires
            self.wf(),
            in_bounds(self.width as int, self.height as int, c),
        ensures
            r == self.tiles@[cidx(self.width as int, c)],
    {
        let i = cell_index(self.width, self.height, c);
        self.tiles[i]
    }
}

} // verus!
