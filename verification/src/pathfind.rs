//! The grid pathfinder: A* over a generated world's walkability predicate,
//! with unit step cost and the Manhattan distance to the goal as the
//! admissible, consistent heuristic.
//!
//! Path convention: the returned route excludes the start cell and ends at
//! the goal, so its length equals the number of steps taken; an empty route
//! means the start is the goal.

use vstd::prelude::*;
use crate::grid::{adjacent, cidx, filled, in_bounds, lemma_cidx_bounds, lemma_cidx_injective,
    lemma_manhattan_chain, manhattan, manhattan_dist, cell_index, Coord};
use crate::worldgen::World;

verus! {

/// A walk across the world: at least one cell, every cell walkable, every
/// consecutive pair grid-adjacent.
pub open spec fn path_ok(wd: World, p: Seq<Coord>) -> bool {
    &&& p.len() >= 1
    &&& forall|i: int| 0 <= i < p.len() ==> wd.walk(#[trigger] p[i])
    &&& forall|i: int| 0 <= i < p.len() - 1 ==> adjacent(#[trigger] p[i], p[i + 1])
}

/// A walk from `s` to `t`.
pub open spec fn path_ft(wd: World, p: Seq<Coord>, s: Coord, t: Coord) -> bool {
    &&& path_ok(wd, p)
    &&& p[0] == s
    &&& p[p.len() - 1] == t
}

/// Every walk from `s` to `c` takes at least `gv` steps.
pub open spec fn dist_lb(wd: World, s: Coord, c: Coord, gv: int) -> bool {
    forall|p: Seq<Coord>| #[trigger] path_ft(wd, p, s, c) ==> p.len() >= gv + 1
}

/// The boolean stored for cell `c` in a flag row.
pub open spec fn bat(s: Seq<bool>, w: int, c: Coord) -> bool {
    s[cidx(w, c)]
}

/// The cost stored for cell `c` in a cost row.
pub open spec fn gat(g: Seq<usize>, w: int, c: Coord) -> int {
    g[cidx(w, c)] as int
}

/// The predecessor stored for cell `c`.
pub open spec fn pat(par: Seq<Coord>, w: int, c: Coord) -> Coord {
    par[cidx(w, c)]
}

/// How many entries of a flag row are set.
pub open spec fn count_true(s: Seq<bool>) -> nat
    decreases s.len(),
{
    if s.len() == 0 {
        0
    } else {
        count_true(s.drop_last()) + (if s.last() {
            1nat
        } else {
            0nat
        })
    }
}

proof fn lemma_count_le(s: Seq<bool>)
    ensures
        count_true(s) <= s.len(),
    decreases s.len(),
{
    if s.len() > 0 {
        lemma_count_le(s.drop_last());
    }
}

proof fn lemma_count_lt(s: Seq<bool>, i: int)
    requires
        0 <= i < s.len(),
        !s[i],
    ensures
        count_true(s) < s.len(),
    decreases s.len(),
{
    if i < s.len() - 1 {
        lemma_count_lt(s.drop_last(), i);
    } else {
        lemma_count_le(s.drop_last());
    }
}

proof fn lemma_count_set_true(s: Seq<bool>, i: int)
    requires
        0 <= i < s.len(),
        !s[i],
    ensures
        count_true(s.update(i, true)) == count_true(s) + 1,
    decreases s.len(),
{
    let upd = s.update(i, true);
    if i == s.len() - 1 {
        assert(upd.drop_last() =~= s.drop_last());
        assert(upd.last());
    } else {
        assert(upd.drop_last() =~= s.drop_last().update(i, true));
        assert(upd.last() == s.last());
        lemma_count_set_true(s.drop_last(), i);
    }
}

/// The bookkeeping shape of an in-progress search. `seen` cells have a best
/// known cost `g` and, unless they are the start, a closed predecessor one
/// step cheaper; the open list holds exactly the seen, not-yet-closed cells,
/// once each.
pub open spec fn inv_base(
    wd: World,
    start: Coord,
    seen: Seq<bool>,
    closed: Seq<bool>,
    g: Seq<usize>,
    parent: Seq<Coord>,
    openv: Seq<Coord>,
) -> bool {
    let w = wd.width as int;
    let h = wd.height as int;
    let n = w * h;
    &&& seen.len() == n
    &&& closed.len() == n
    &&& g.len() == n
    &&& parent.len() == n
    &&& wd.walk(start)
    &&& bat(seen, w, start)
    &&& gat(g, w, start) == 0
    &&& forall|c: Coord| in_bounds(w, h, c) && #[trigger] bat(seen, w, c) ==> wd.walk(c)
    &&& forall|c: Coord| in_bounds(w, h, c) && #[trigger] bat(closed, w, c) ==> bat(seen, w, c)
    &&& forall|c: Coord|
        in_bounds(w, h, c) && #[trigger] bat(seen, w, c) && c != start ==> {
            let p = pat(parent, w, c);
            &&& gat(g, w, c) >= 1
            &&& in_bounds(w, h, p)
            &&& wd.walk(p)
            &&& adjacent(p, c)
            &&& bat(closed, w, p)
            &&& gat(g, w, c) == gat(g, w, p) + 1
        }
    &&& forall|j: int|
        0 <= j < openv.len() ==> in_bounds(w, h, #[trigger] openv[j]) && wd.walk(openv[j]) && bat(
            seen,
            w,
            openv[j],
        ) && !bat(closed, w, openv[j])
    &&& forall|c: Coord|
        in_bounds(w, h, c) && #[trigger] bat(seen, w, c) && !bat(closed, w, c) ==> openv.contains(
            c,
        )
    &&& forall|j1: int, j2: int| 0 <= j1 < j2 < openv.len() ==> openv[j1] != openv[j2]
    &&& forall|c: Coord|
        in_bounds(w, h, c) && #[trigger] bat(seen, w, c) ==> gat(g, w, c) <= count_true(closed)
    &&& forall|c: Coord|
        in_bounds(w, h, c) && #[trigger] bat(closed, w, c) ==> gat(g, w, c) < count_true(closed)
    &&& count_true(closed) <= n
}

/// Every closed cell has already pushed its cost to each walkable neighbor,
/// except possibly the cell `exc` whose neighbors are being relaxed now.
pub open spec fn inv_closure_except(
    wd: World,
    seen: Seq<bool>,
    closed: Seq<bool>,
    g: Seq<usize>,
    exc: Coord,
) -> bool {
    let w = wd.width as int;
    let h = wd.height as int;
    forall|c: Coord, b: Coord|
        in_bounds(w, h, c) && #[trigger] bat(closed, w, c) && c != exc && #[trigger] adjacent(c, b)
            && wd.walk(b) ==> bat(seen, w, b) && gat(g, w, b) <= gat(g, w, c) + 1
}

/// Every closed cell's cost is a lower bound on every walk reaching it.
pub open spec fn inv_dist(
    wd: World,
    start: Coord,
    closed: Seq<bool>,
    g: Seq<usize>,
) -> bool {
    let w = wd.width as int;
    let h = wd.height as int;
    forall|c: Coord|
        in_bounds(w, h, c) && #[trigger] bat(closed, w, c) ==> dist_lb(wd, start, c, gat(g, w, c))
}

/// Along any walk from the start, either the endpoint is closed at a cost no
/// larger than the walk's step count, or the walk passes through an open cell
/// whose cost is no larger than its position on the walk.
proof fn lemma_frontier(
    wd: World,
    start: Coord,
    seen: Seq<bool>,
    closed: Seq<bool>,
    g: Seq<usize>,
    p: Seq<Coord>,
)
    requires
        wd.wf(),
        seen.len() == wd.width * wd.height,
        closed.len() == wd.width * wd.height,
        g.len() == wd.width * wd.height,
        wd.walk(start),
        bat(seen, wd.width as int, start),
        gat(g, wd.width as int, start) == 0,
        forall|c: Coord, b: Coord|
            in_bounds(wd.width as int, wd.height as int, c) && #[trigger] bat(
                closed,
                wd.width as int,
                c,
            ) && #[trigger] adjacent(c, b) && wd.walk(b) ==> bat(seen, wd.width as int, b) && gat(
                g,
                wd.width as int,
                b,
            ) <= gat(g, wd.width as int, c) + 1,
        path_ok(wd, p),
        p[0] == start,
    ensures
        ({
            let w = wd.width as int;
            let z = p[p.len() - 1];
            (bat(closed, w, z) && gat(g, w, z) <= p.len() - 1) || (exists|j: int|
                0 <= j < p.len() && bat(seen, w, #[trigger] p[j]) && !bat(closed, w, p[j]) && gat(
                    g,
                    w,
                    p[j],
                ) <= j)
        }),
    decreases p.len(),
{
    let w = wd.width as int;
    let h = wd.height as int;
    let z = p[p.len() - 1];
    if p.len() == 1 {
        assert(z == start);
        if !bat(closed, w, z) {
            assert(bat(seen, w, p[0]) && !bat(closed, w, p[0]) && gat(g, w, p[0]) <= 0);
        }
    } else {
        let q = p.drop_last();
        assert(q.len() == p.len() - 1);
        assert(forall|i: int| 0 <= i < q.len() ==> q[i] == #[trigger] p[i]);
        assert(path_ok(wd, q)) by {
            assert(forall|i: int| 0 <= i < q.len() ==> wd.walk(#[trigger] q[i]));
            assert(forall|i: int|
                0 <= i < q.len() - 1 ==> adjacent(#[trigger] q[i], q[i + 1]));
        }
        lemma_frontier(wd, start, seen, closed, g, q);
        let y = q[q.len() - 1];
        assert(y == p[p.len() - 2]);
        assert(adjacent(y, z));
        assert(wd.walk(z));
        if bat(closed, w, y) && gat(g, w, y) <= q.len() - 1 {
            assert(in_bounds(w, h, y)) by {
                assert(wd.walk(y));
            }
            assert(bat(seen, w, z) && gat(g, w, z) <= gat(g, w, y) + 1);
            if !bat(closed, w, z) {
                assert(bat(seen, w, p[p.len() - 1]) && !bat(closed, w, p[p.len() - 1]) && gat(
                    g,
                    w,
                    p[p.len() - 1],
                ) <= p.len() - 1);
            }
        } else {
            let j = choose|j: int|
                0 <= j < q.len() && bat(seen, w, #[trigger] q[j]) && !bat(closed, w, q[j]) && gat(
                    g,
                    w,
                    q[j],
                ) <= j;
            assert(bat(seen, w, p[j]) && !bat(closed, w, p[j]) && gat(g, w, p[j]) <= j);
        }
    }
}

/// Every seen cell is reached by an actual walk of exactly its recorded cost,
/// read off the predecessor chain.
proof fn lemma_witness(
    wd: World,
    start: Coord,
    seen: Seq<bool>,
    closed: Seq<bool>,
    g: Seq<usize>,
    parent: Seq<Coord>,
    openv: Seq<Coord>,
    c: Coord,
)
    requires
        wd.wf(),
        inv_base(wd, start, seen, closed, g, parent, openv),
        in_bounds(wd.width as int, wd.height as int, c),
        bat(seen, wd.width as int, c),
    ensures
        exists|p: Seq<Coord>|
            #[trigger] path_ft(wd, p, start, c) && p.len() == gat(g, wd.width as int, c) + 1,
    decreases gat(g, wd.width as int, c),
{
    let w = wd.width as int;
    let h = wd.height as int;
    if c == start {
        let p = seq![start];
        assert(path_ft(wd, p, start, c)) by {
            assert(p[0] == start);
            assert(wd.walk(p[0]));
        }
        assert(p.len() == gat(g, w, c) + 1);
    } else {
        let pr = pat(parent, w, c);
        assert(bat(closed, w, pr));
        assert(bat(seen, w, pr));
        lemma_witness(wd, start, seen, closed, g, parent, openv, pr);
        let p0 = choose|p0: Seq<Coord>|
            #[trigger] path_ft(wd, p0, start, pr) && p0.len() == gat(g, w, pr) + 1;
        let p = p0.push(c);
        assert(path_ft(wd, p, start, c)) by {
            assert(forall|i: int| 0 <= i < p0.len() ==> p[i] == #[trigger] p0[i]);
            assert(p[p.len() - 1] == c);
            assert(wd.walk(c));
            assert(forall|i: int| 0 <= i < p.len() ==> wd.walk(#[trigger] p[i]));
            assert(p0[p0.len() - 1] == pr);
            assert(adjacent(pr, c));
            assert(forall|i: int| 0 <= i < p.len() - 1 ==> adjacent(#[trigger] p[i], p[i + 1]));
            assert(p[0] == start);
        }
        assert(p.len() == gat(g, w, c) + 1);
    }
}

/// Removing one entry of a duplicate-free sequence removes exactly it.
proof fn lemma_remove_contains(s: Seq<Coord>, i: int, y: Coord)
    requires
        0 <= i < s.len(),
        forall|j1: int, j2: int| 0 <= j1 < j2 < s.len() ==> s[j1] != s[j2],
    ensures
        s.remove(i).contains(y) <==> (s.contains(y) && y != s[i]),
        forall|j1: int, j2: int|
            0 <= j1 < j2 < s.remove(i).len() ==> s.remove(i)[j1] != s.remove(i)[j2],
{
    let r = s.remove(i);
    s.remove_ensures(i);
    if r.contains(y) {
        let j = choose|j: int| 0 <= j < r.len() && r[j] == y;
        if j < i {
            assert(s[j] == y);
            assert(s.contains(y));
        } else {
            assert(s[j + 1] == y);
            assert(s.contains(y));
        }
    }
    if s.contains(y) && y != s[i] {
        let j = choose|j: int| 0 <= j < s.len() && s[j] == y;
        if j < i {
            assert(r[j] == y);
        } else {
            assert(j > i);
            assert(r[j - 1] == y);
        }
        assert(r.contains(y));
    }
}

/// The stored cost plus the Manhattan heuristic to the goal.
pub open spec fn fval(wd: World, g: Seq<usize>, goal: Coord, c: Coord) -> int {
    gat(g, wd.width as int, c) + manhattan(c, goal)
}

/// In-bounds cells are close enough together for cost sums to fit.
proof fn lemma_manhattan_fits(wd: World, a: Coord, b: Coord)
    requires
        wd.wf(),
        in_bounds(wd.width as int, wd.height as int, a),
        in_bounds(wd.width as int, wd.height as int, b),
    ensures
        a.x + a.y + b.x + b.y <= usize::MAX,
        manhattan(a, b) <= wd.width + wd.height,
{
    assert(a.x + a.y + b.x + b.y <= wd.width * wd.height + wd.width + wd.height)
        by (nonlinear_arith)
        requires
            a.x < wd.width,
            a.y < wd.height,
            b.x < wd.width,
            b.y < wd.height,
            wd.width >= 1,
            wd.height >= 1,
    ;
}

/// Scans the open list for an entry with the least f value.
fn pick_min_f(wd: &World, goal: Coord, openv: &Vec<Coord>, g: &Vec<usize>) -> (jm: usize)
    requires
        wd.wf(),
        openv@.len() >= 1,
        g@.len() == wd.width * wd.height,
        in_bounds(wd.width as int, wd.height as int, goal),
        forall|j: int|
            0 <= j < openv@.len() ==> in_bounds(wd.width as int, wd.height as int, #[trigger] openv@[j])
                && gat(g@, wd.width as int, openv@[j]) <= wd.width * wd.height,
    ensures
        jm < openv@.len(),
        forall|j: int|
            0 <= j < openv@.len() ==> fval(*wd, g@, goal, openv@[jm as int]) <= fval(
                *wd,
                g@,
                goal,
                #[trigger] openv@[j],
            ),
{
    let width = wd.width;
    let height = wd.height;
    let c0 = openv[0];
    proof {
        lemma_manhattan_fits(*wd, c0, goal);
        lemma_cidx_bounds(width as int, height as int, c0);
    }
    let i0 = cell_index(width, height, c0);
    let mut best: usize = g[i0] + manhattan_dist(c0, goal);
    let mut jm: usize = 0;
    let mut j: usize = 1;
    while j < openv.len()
        invariant
            wd.wf(),
            width == wd.width,
            height == wd.height,
            1 <= j <= openv@.len(),
            g@.len() == wd.width * wd.height,
            in_bounds(wd.width as int, wd.height as int, goal),
            forall|j2: int|
                0 <= j2 < openv@.len() ==> in_bounds(
                    wd.width as int,
                    wd.height as int,
                    #[trigger] openv@[j2],
                ) && gat(g@, wd.width as int, openv@[j2]) <= wd.width * wd.height,
            jm < j,
            best == fval(*wd, g@, goal, openv@[jm as int]),
            forall|j2: int|
                0 <= j2 < j ==> best <= fval(*wd, g@, goal, #[trigger] openv@[j2]),
        decreases openv@.len() - j,
    {
        let c = openv[j];
        proof {
            lemma_manhattan_fits(*wd, c, goal);
            lemma_cidx_bounds(width as int, height as int, c);
        }
        let i = cell_index(width, height, c);
        let f = g[i] + manhattan_dist(c, goal);
        if f < best {
            best = f;
            jm = j;
        }
        j = j + 1;
    }
    jm
}

/// Offers the cost through the freshly closed cell `c` to its walkable
/// neighbor `b`: discovers it, improves it, or — when `b` is closed — proves
/// no improvement was possible.
/// The state change of discovering an unseen neighbor `b` from the closed
/// cell `c`: record cost, predecessor, and open-list membership.
#[verifier::rlimit(100)]
#[verifier::spinoff_prover]
proof fn lemma_relax_new(
    wd: World,
    start: Coord,
    seen0: Seq<bool>,
    closed: Seq<bool>,
    g0: Seq<usize>,
    parent0: Seq<Coord>,
    open0: Seq<Coord>,
    c: Coord,
    b: Coord,
    gn: usize,
)
    requires
        wd.wf(),
        inv_base(wd, start, seen0, closed, g0, parent0, open0),
        inv_closure_except(wd, seen0, closed, g0, c),
        inv_dist(wd, start, closed, g0),
        in_bounds(wd.width as int, wd.height as int, c),
        bat(closed, wd.width as int, c),
        wd.walk(b),
        adjacent(c, b),
        gn as int == gat(g0, wd.width as int, c) + 1,
        !bat(seen0, wd.width as int, b),
    ensures
        inv_base(
            wd,
            start,
            seen0.update(cidx(wd.width as int, b), true),
            closed,
            g0.update(cidx(wd.width as int, b), gn),
            parent0.update(cidx(wd.width as int, b), c),
            open0.push(b),
        ),
{
    let w = wd.width as int;
    let h = wd.height as int;
    lemma_cidx_bounds(w, h, b);
    lemma_cidx_bounds(w, h, c);
    let ib = cidx(w, b);
    let seen1 = seen0.update(ib, true);
    let g1 = g0.update(ib, gn);
    let parent1 = parent0.update(ib, c);
    let open1 = open0.push(b);
    assert forall|c2: Coord|
        in_bounds(w, h, c2) && c2 != b implies #[trigger] cidx(w, c2) != ib by {
        if cidx(w, c2) == ib {
            lemma_cidx_injective(w, h, c2, b);
        }
    }
    if cidx(w, c) == ib {
        lemma_cidx_injective(w, h, c, b);
        assert(bat(seen0, w, b));
        assert(false);
    }
    assert(!bat(closed, w, b)) by {
        if bat(closed, w, b) {
            assert(bat(seen0, w, b));
        }
    }
    assert(b != start) by {
        if b == start {
            assert(bat(seen0, w, start));
        }
    }
    assert(in_bounds(w, h, start));
    lemma_cidx_bounds(w, h, start);
    assert(!open0.contains(b)) by {
        if open0.contains(b) {
            let j = choose|j: int| 0 <= j < open0.len() && open0[j] == b;
            assert(bat(seen0, w, open0[j]));
        }
    }
    // seen cells walk; closed cells are seen
    assert forall|c2: Coord|
        in_bounds(w, h, c2) && #[trigger] bat(seen1, w, c2) implies wd.walk(c2) by {
        lemma_cidx_bounds(w, h, c2);
        if c2 != b {
            assert(bat(seen0, w, c2));
        }
    }
    assert forall|c2: Coord|
        in_bounds(w, h, c2) && #[trigger] bat(closed, w, c2) implies bat(seen1, w, c2) by {
        lemma_cidx_bounds(w, h, c2);
        if c2 != b {
            assert(bat(seen0, w, c2));
        }
    }
    // open entries keep their shape; the new entry has it too
    assert forall|j: int|
        0 <= j < open1.len() implies in_bounds(w, h, #[trigger] open1[j]) && wd.walk(open1[j])
        && bat(seen1, w, open1[j]) && !bat(closed, w, open1[j]) by {
        if j == open1.len() - 1 {
            assert(open1[j] == b);
        } else {
            let e = open0[j];
            assert(open1[j] == e);
            lemma_cidx_bounds(w, h, e);
            assert(bat(seen0, w, e));
        }
    }
    // link: everything seen-and-open is on the list
    assert forall|c2: Coord|
        in_bounds(w, h, c2) && #[trigger] bat(seen1, w, c2) && !bat(closed, w, c2) implies
        open1.contains(c2) by {
        lemma_cidx_bounds(w, h, c2);
        if c2 == b {
            assert(open1[open1.len() - 1] == b);
        } else {
            assert(bat(seen0, w, c2));
            assert(open0.contains(c2));
            let j = choose|j: int| 0 <= j < open0.len() && open0[j] == c2;
            assert(open1[j] == c2);
        }
    }
    // distinctness
    assert forall|j1: int, j2: int| 0 <= j1 < j2 < open1.len() implies open1[j1] != open1[j2] by {
        if j2 == open1.len() - 1 {
            assert(open1[j2] == b);
            assert(open0[j1] == open1[j1]);
            if open1[j1] == b {
                assert(open0.contains(b));
            }
        }
    }
    // predecessor chains: only b's entry changed, and no chain ran through b
    assert forall|c2: Coord|
        in_bounds(w, h, c2) && #[trigger] bat(seen1, w, c2) && c2 != start implies {
        let p = pat(parent1, w, c2);
        &&& gat(g1, w, c2) >= 1
        &&& in_bounds(w, h, p)
        &&& wd.walk(p)
        &&& adjacent(p, c2)
        &&& bat(closed, w, p)
        &&& gat(g1, w, c2) == gat(g1, w, p) + 1
    } by {
        lemma_cidx_bounds(w, h, c2);
        if c2 == b {
            assert(pat(parent1, w, b) == c);
            assert(gat(g1, w, b) == gn);
            assert(gat(g1, w, c) == gat(g0, w, c));
        } else {
            assert(bat(seen0, w, c2));
            let p = pat(parent0, w, c2);
            assert(bat(closed, w, p));
            lemma_cidx_bounds(w, h, p);
            assert(p != b) by {
                if p == b {
                    assert(bat(seen0, w, b));
                }
            }
            assert(pat(parent1, w, c2) == p);
            assert(gat(g1, w, c2) == gat(g0, w, c2));
            assert(gat(g1, w, p) == gat(g0, w, p));
        }
    }
    // cost bounds
    assert forall|c2: Coord|
        in_bounds(w, h, c2) && #[trigger] bat(seen1, w, c2) implies gat(g1, w, c2) <= count_true(
        closed,
    ) by {
        lemma_cidx_bounds(w, h, c2);
        if c2 == b {
            assert(gat(g0, w, c) < count_true(closed));
        } else {
            assert(bat(seen0, w, c2));
        }
    }
    assert forall|c2: Coord|
        in_bounds(w, h, c2) && #[trigger] bat(closed, w, c2) implies gat(g1, w, c2) == gat(
        g0,
        w,
        c2,
    ) && gat(g1, w, c2) < count_true(closed) by {
        lemma_cidx_bounds(w, h, c2);
        assert(c2 != b);
    }
}

#[verifier::rlimit(100)]
#[verifier::spinoff_prover]
proof fn lemma_relax_new_aux(
    wd: World,
    start: Coord,
    seen0: Seq<bool>,
    closed: Seq<bool>,
    g0: Seq<usize>,
    parent0: Seq<Coord>,
    open0: Seq<Coord>,
    c: Coord,
    b: Coord,
    gn: usize,
)
    requires
        wd.wf(),
        inv_base(wd, start, seen0, closed, g0, parent0, open0),
        inv_closure_except(wd, seen0, closed, g0, c),
        inv_dist(wd, start, closed, g0),
        in_bounds(wd.width as int, wd.height as int, c),
        bat(closed, wd.width as int, c),
        wd.walk(b),
        adjacent(c, b),
        gn as int == gat(g0, wd.width as int, c) + 1,
        !bat(seen0, wd.width as int, b),
    ensures
        inv_closure_except(
            wd,
            seen0.update(cidx(wd.width as int, b), true),
            closed,
            g0.update(cidx(wd.width as int, b), gn),
            c,
        ),
        inv_dist(wd, start, closed, g0.update(cidx(wd.width as int, b), gn)),
        forall|c2: Coord|
            in_bounds(wd.width as int, wd.height as int, c2) && #[trigger] bat(
                closed,
                wd.width as int,
                c2,
            ) ==> gat(g0.update(cidx(wd.width as int, b), gn), wd.width as int, c2) == gat(
                g0,
                wd.width as int,
                c2,
            ),
{
    let w = wd.width as int;
    let h = wd.height as int;
    lemma_cidx_bounds(w, h, b);
    lemma_cidx_bounds(w, h, c);
    let ib = cidx(w, b);
    let seen1 = seen0.update(ib, true);
    let g1 = g0.update(ib, gn);
    assert forall|c2: Coord|
        in_bounds(w, h, c2) && c2 != b implies #[trigger] cidx(w, c2) != ib by {
        if cidx(w, c2) == ib {
            lemma_cidx_injective(w, h, c2, b);
        }
    }
    // closure-except is preserved: b had no closed neighbor besides c
    assert forall|c2: Coord, b2: Coord|
        in_bounds(w, h, c2) && #[trigger] bat(closed, w, c2) && c2 != c && #[trigger] adjacent(
            c2,
            b2,
        ) && wd.walk(b2) implies bat(seen1, w, b2) && gat(g1, w, b2) <= gat(g1, w, c2) + 1 by {
        lemma_cidx_bounds(w, h, c2);
        lemma_cidx_bounds(w, h, b2);
        assert(bat(seen0, w, b2) && gat(g0, w, b2) <= gat(g0, w, c2) + 1);
        assert(b2 != b) by {
            if b2 == b {
                assert(bat(seen0, w, b));
            }
        }
        assert(c2 != b);
    }
    // closed costs unchanged, so their distance bounds carry over
    assert forall|c2: Coord|
        in_bounds(w, h, c2) && #[trigger] bat(closed, w, c2) implies gat(g1, w, c2) == gat(
        g0,
        w,
        c2,
    ) by {
        lemma_cidx_bounds(w, h, c2);
        assert(c2 != b) by {
            if c2 == b {
                assert(bat(seen0, w, b));
            }
        }
    }
    assert forall|c2: Coord|
        in_bounds(w, h, c2) && #[trigger] bat(closed, w, c2) implies dist_lb(
        wd,
        start,
        c2,
        gat(g1, w, c2),
    ) by {
        lemma_cidx_bounds(w, h, c2);
        assert(gat(g1, w, c2) == gat(g0, w, c2));
        assert(dist_lb(wd, start, c2, gat(g0, w, c2)));
    }
}

/// The state change of improving the cost of an open neighbor `b` through the
/// closed cell `c`.
#[verifier::rlimit(100)]
#[verifier::spinoff_prover]
proof fn lemma_relax_improve(
    wd: World,
    start: Coord,
    seen0: Seq<bool>,
    closed: Seq<bool>,
    g0: Seq<usize>,
    parent0: Seq<Coord>,
    open0: Seq<Coord>,
    c: Coord,
    b: Coord,
    gn: usize,
)
    requires
        wd.wf(),
        inv_base(wd, start, seen0, closed, g0, parent0, open0),
        inv_closure_except(wd, seen0, closed, g0, c),
        inv_dist(wd, start, closed, g0),
        in_bounds(wd.width as int, wd.height as int, c),
        bat(closed, wd.width as int, c),
        wd.walk(b),
        adjacent(c, b),
        gn as int == gat(g0, wd.width as int, c) + 1,
        bat(seen0, wd.width as int, b),
        !bat(closed, wd.width as int, b),
        (gn as int) < gat(g0, wd.width as int, b),
    ensures
        inv_base(
            wd,
            start,
            seen0,
            closed,
            g0.update(cidx(wd.width as int, b), gn),
            parent0.update(cidx(wd.width as int, b), c),
            open0,
        ),
        inv_closure_except(wd, seen0, closed, g0.update(cidx(wd.width as int, b), gn), c),
        inv_dist(wd, start, closed, g0.update(cidx(wd.width as int, b), gn)),
        forall|c2: Coord|
            in_bounds(wd.width as int, wd.height as int, c2) && #[trigger] bat(
                closed,
                wd.width as int,
                c2,
            ) ==> gat(g0.update(cidx(wd.width as int, b), gn), wd.width as int, c2) == gat(
                g0,
                wd.width as int,
                c2,
            ),
        forall|c2: Coord|
            in_bounds(wd.width as int, wd.height as int, c2) ==> #[trigger] gat(
                g0.update(cidx(wd.width as int, b), gn),
                wd.width as int,
                c2,
            ) <= gat(g0, wd.width as int, c2),
{
    let w = wd.width as int;
    let h = wd.height as int;
    lemma_cidx_bounds(w, h, b);
    lemma_cidx_bounds(w, h, c);
    let ib = cidx(w, b);
    let g1 = g0.update(ib, gn);
    let parent1 = parent0.update(ib, c);
    assert forall|c2: Coord|
        in_bounds(w, h, c2) && c2 != b implies #[trigger] cidx(w, c2) != ib by {
        if cidx(w, c2) == ib {
            lemma_cidx_injective(w, h, c2, b);
        }
    }
    if cidx(w, c) == ib {
        lemma_cidx_injective(w, h, c, b);
        assert(bat(closed, w, b));
        assert(false);
    }
    assert(b != start) by {
        if b == start {
            assert(gat(g0, w, start) == 0);
        }
    }
    assert(in_bounds(w, h, start));
    lemma_cidx_bounds(w, h, start);
    // predecessor chains
    assert forall|c2: Coord|
        in_bounds(w, h, c2) && #[trigger] bat(seen0, w, c2) && c2 != start implies {
        let p = pat(parent1, w, c2);
        &&& gat(g1, w, c2) >= 1
        &&& in_bounds(w, h, p)
        &&& wd.walk(p)
        &&& adjacent(p, c2)
        &&& bat(closed, w, p)
        &&& gat(g1, w, c2) == gat(g1, w, p) + 1
    } by {
        lemma_cidx_bounds(w, h, c2);
        if c2 == b {
            assert(pat(parent1, w, b) == c);
            assert(gat(g1, w, b) == gn);
            assert(gat(g1, w, c) == gat(g0, w, c));
        } else {
            let p = pat(parent0, w, c2);
            assert(bat(closed, w, p));
            lemma_cidx_bounds(w, h, p);
            assert(p != b) by {
                if p == b {
                    assert(bat(closed, w, b));
                }
            }
            assert(pat(parent1, w, c2) == p);
            assert(gat(g1, w, c2) == gat(g0, w, c2));
            assert(gat(g1, w, p) == gat(g0, w, p));
        }
    }
    // cost bounds
    assert forall|c2: Coord|
        in_bounds(w, h, c2) && #[trigger] bat(seen0, w, c2) implies gat(g1, w, c2) <= count_true(
        closed,
    ) by {
        lemma_cidx_bounds(w, h, c2);
        if c2 == b {
            assert(gat(g0, w, c) < count_true(closed));
        }
    }
    assert forall|c2: Coord|
        in_bounds(w, h, c2) && #[trigger] bat(closed, w, c2) implies gat(g1, w, c2) == gat(
        g0,
        w,
        c2,
    ) by {
        lemma_cidx_bounds(w, h, c2);
        assert(c2 != b);
    }
    // closure-except: b's cost only went down
    assert forall|c2: Coord, b2: Coord|
        in_bounds(w, h, c2) && #[trigger] bat(closed, w, c2) && c2 != c && #[trigger] adjacent(
            c2,
            b2,
        ) && wd.walk(b2) implies bat(seen0, w, b2) && gat(g1, w, b2) <= gat(g1, w, c2) + 1 by {
        lemma_cidx_bounds(w, h, c2);
        lemma_cidx_bounds(w, h, b2);
        assert(bat(seen0, w, b2) && gat(g0, w, b2) <= gat(g0, w, c2) + 1);
        assert(c2 != b);
        if b2 == b {
            assert(gat(g1, w, b) <= gat(g0, w, b));
        }
    }
    // distance bounds carry over
    assert forall|c2: Coord|
        in_bounds(w, h, c2) && #[trigger] bat(closed, w, c2) implies dist_lb(
        wd,
        start,
        c2,
        gat(g1, w, c2),
    ) by {
        lemma_cidx_bounds(w, h, c2);
        assert(c2 != b);
        assert(dist_lb(wd, start, c2, gat(g0, w, c2)));
    }
    // costs never rise
    assert forall|c2: Coord| in_bounds(w, h, c2) implies #[trigger] gat(g1, w, c2) <= gat(
        g0,
        w,
        c2,
    ) by {
        lemma_cidx_bounds(w, h, c2);
        if c2 == b {
        } else {
            assert(cidx(w, c2) != ib);
        }
    }
}

/// Offers the cost through the freshly closed cell `c` to its walkable
/// neighbor `b`: discovers it, improves it, or — when `b` is closed — proves
/// no improvement was possible.
fn relax_neighbor(
    wd: &World,
    start: Coord,
    seen: &mut Vec<bool>,
    closedv: &Vec<bool>,
    g: &mut Vec<usize>,
    parent: &mut Vec<Coord>,
    openv: &mut Vec<Coord>,
    c: Coord,
    b: Coord,
)
    requires
        wd.wf(),
        inv_base(*wd, start, old(seen)@, closedv@, old(g)@, old(parent)@, old(openv)@),
        inv_closure_except(*wd, old(seen)@, closedv@, old(g)@, c),
        inv_dist(*wd, start, closedv@, old(g)@),
        in_bounds(wd.width as int, wd.height as int, c),
        bat(closedv@, wd.width as int, c),
        wd.walk(b),
        adjacent(c, b),
    ensures
        inv_base(*wd, start, final(seen)@, closedv@, final(g)@, final(parent)@, final(openv)@),
        inv_closure_except(*wd, final(seen)@, closedv@, final(g)@, c),
        inv_dist(*wd, start, closedv@, final(g)@),
        bat(final(seen)@, wd.width as int, b),
        gat(final(g)@, wd.width as int, b) <= gat(old(g)@, wd.width as int, c) + 1,
        forall|c2: Coord|
            in_bounds(wd.width as int, wd.height as int, c2) && #[trigger] bat(
                old(seen)@,
                wd.width as int,
                c2,
            ) ==> bat(final(seen)@, wd.width as int, c2) && gat(final(g)@, wd.width as int, c2)
                <= gat(old(g)@, wd.width as int, c2),
        forall|c2: Coord|
            in_bounds(wd.width as int, wd.height as int, c2) && #[trigger] bat(
                closedv@,
                wd.width as int,
                c2,
            ) ==> gat(final(g)@, wd.width as int, c2) == gat(old(g)@, wd.width as int, c2),
{
    let width = wd.width;
    let height = wd.height;
    let ghost w = width as int;
    let ghost h = height as int;
    proof {
        lemma_cidx_bounds(w, h, b);
        lemma_cidx_bounds(w, h, c);
    }
    let ib = cell_index(width, height, b);
    let ic = cell_index(width, height, c);
    let gc = g[ic];
    proof {
        assert(bat(old(seen)@, w, c));
        assert(gc <= count_true(closedv@));
        assert(count_true(closedv@) <= w * h);
        assert(w * h + 1 <= usize::MAX);
    }
    let ghost seen0 = seen@;
    let ghost g0 = g@;
    let ghost parent0 = parent@;
    let ghost open0 = openv@;
    if !seen[ib] {
        proof {
            lemma_relax_new(*wd, start, seen0, closedv@, g0, parent0, open0, c, b, (gc + 1) as usize);
            lemma_relax_new_aux(*wd, start, seen0, closedv@, g0, parent0, open0, c, b, (gc + 1)
                as usize);
        }
        seen.set(ib, true);
        g.set(ib, gc + 1);
        parent.set(ib, c);
        openv.push(b);
        proof {
            assert(gat(g@, w, b) == gc + 1);
            assert forall|c2: Coord|
                in_bounds(w, h, c2) && #[trigger] bat(seen0, w, c2) implies bat(seen@, w, c2)
                && gat(g@, w, c2) <= gat(g0, w, c2) by {
                lemma_cidx_bounds(w, h, c2);
                if c2 == b {
                    assert(false);
                } else {
                    assert(cidx(w, c2) != cidx(w, b)) by {
                        if cidx(w, c2) == cidx(w, b) {
                            lemma_cidx_injective(w, h, c2, b);
                        }
                    }
                }
            }
        }
    } else if !closedv[ib] {
        if gc + 1 < g[ib] {
            proof {
                lemma_relax_improve(*wd, start, seen0, closedv@, g0, parent0, open0, c, b, (gc
                    + 1) as usize);
            }
            g.set(ib, gc + 1);
            parent.set(ib, c);
            proof {
                assert(gat(g@, w, b) == gc + 1);
            }
        } else {
            proof {
                assert(gat(g@, w, b) <= gat(g@, w, c) + 1);
            }
        }
    } else {
        proof {
            // b is closed: extending the witness walk to c by one step shows
            // its recorded cost cannot exceed going through c
            assert(in_bounds(w, h, b));
            assert(bat(closedv@, w, b));
            lemma_witness(*wd, start, seen@, closedv@, g@, parent@, openv@, c);
            let p0 = choose|p0: Seq<Coord>|
                #[trigger] path_ft(*wd, p0, start, c) && p0.len() == gat(g@, w, c) + 1;
            let p = p0.push(b);
            assert(path_ft(*wd, p, start, b)) by {
                assert(forall|i: int| 0 <= i < p0.len() ==> p[i] == #[trigger] p0[i]);
                assert(p[p.len() - 1] == b);
                assert(forall|i: int| 0 <= i < p.len() ==> wd.walk(#[trigger] p[i]));
                assert(p0[p0.len() - 1] == c);
                assert(forall|i: int|
                    0 <= i < p.len() - 1 ==> adjacent(#[trigger] p[i], p[i + 1]));
                assert(p[0] == start);
            }
            assert(dist_lb(*wd, start, b, gat(g@, w, b)));
            assert(p.len() >= gat(g@, w, b) + 1);
            assert(gat(g@, w, b) <= gat(g@, w, c) + 1);
        }
    }
}


/// An all-clear flag row counts zero.
proof fn lemma_count_false(s: Seq<bool>)
    requires
        forall|i: int| 0 <= i < s.len() ==> !s[i],
    ensures
        count_true(s) == 0,
    decreases s.len(),
{
    if s.len() > 0 {
        assert(forall|i: int| 0 <= i < s.drop_last().len() ==> !s.drop_last()[i]);
        lemma_count_false(s.drop_last());
    }
}

/// No walk can reach the goal once the open frontier is empty while the goal
/// is still unclosed.
#[verifier::rlimit(60)]
#[verifier::spinoff_prover]
proof fn lemma_no_path(
    wd: World,
    start: Coord,
    goal: Coord,
    seen: Seq<bool>,
    closed: Seq<bool>,
    g: Seq<usize>,
    parent: Seq<Coord>,
    openv: Seq<Coord>,
)
    requires
        wd.wf(),
        inv_base(wd, start, seen, closed, g, parent, openv),
        inv_closure_except(wd, seen, closed, g, goal),
        !bat(closed, wd.width as int, goal),
        wd.walk(goal),
        openv.len() == 0,
    ensures
        forall|q: Seq<Coord>| !path_ft(wd, q, start, goal),
{
    let w = wd.width as int;
    let h = wd.height as int;
    assert forall|q: Seq<Coord>| !path_ft(wd, q, start, goal) by {
        if path_ft(wd, q, start, goal) {
            assert forall|c2: Coord, b2: Coord|
                in_bounds(w, h, c2) && #[trigger] bat(closed, w, c2) && #[trigger] adjacent(
                    c2,
                    b2,
                ) && wd.walk(b2) implies bat(seen, w, b2) && gat(g, w, b2) <= gat(g, w, c2) + 1 by {
                assert(c2 != goal);
            }
            lemma_frontier(wd, start, seen, closed, g, q);
            if bat(closed, w, q[q.len() - 1]) {
                assert(false);
            } else {
                let j = choose|j: int|
                    0 <= j < q.len() && bat(seen, w, #[trigger] q[j]) && !bat(closed, w, q[j])
                        && gat(g, w, q[j]) <= j;
                assert(wd.walk(q[j]));
                assert(openv.contains(q[j]));
                assert(false);
            }
        }
    }
}

/// An open cell of minimal f value has an optimal recorded cost: every walk
/// reaching it crosses the frontier at a cell whose f value is no smaller,
/// and the Manhattan heuristic is consistent along the rest of the walk.
#[verifier::rlimit(60)]
#[verifier::spinoff_prover]
proof fn lemma_pop_bound(
    wd: World,
    start: Coord,
    goal: Coord,
    seen: Seq<bool>,
    closed: Seq<bool>,
    g: Seq<usize>,
    parent: Seq<Coord>,
    open_pre: Seq<Coord>,
    c: Coord,
)
    requires
        wd.wf(),
        inv_base(wd, start, seen, closed, g, parent, open_pre),
        inv_closure_except(wd, seen, closed, g, goal),
        !bat(closed, wd.width as int, goal),
        wd.walk(goal),
        open_pre.contains(c),
        forall|j: int|
            0 <= j < open_pre.len() ==> fval(wd, g, goal, c) <= fval(
                wd,
                g,
                goal,
                #[trigger] open_pre[j],
            ),
    ensures
        dist_lb(wd, start, c, gat(g, wd.width as int, c)),
{
    let w = wd.width as int;
    let h = wd.height as int;
    assert(!bat(closed, w, c)) by {
        let jc = choose|jc: int| 0 <= jc < open_pre.len() && open_pre[jc] == c;
        assert(!bat(closed, w, open_pre[jc]));
    }
    assert forall|q: Seq<Coord>| #[trigger] path_ft(wd, q, start, c) implies q.len() >= gat(
        g,
        w,
        c,
    ) + 1 by {
        assert forall|c2: Coord, b2: Coord|
            in_bounds(w, h, c2) && #[trigger] bat(closed, w, c2) && #[trigger] adjacent(c2, b2)
                && wd.walk(b2) implies bat(seen, w, b2) && gat(g, w, b2) <= gat(g, w, c2) + 1 by {
            assert(c2 != goal);
        }
        lemma_frontier(wd, start, seen, closed, g, q);
        if bat(closed, w, q[q.len() - 1]) {
            assert(false);
        } else {
            let j = choose|j: int|
                0 <= j < q.len() && bat(seen, w, #[trigger] q[j]) && !bat(closed, w, q[j]) && gat(
                    g,
                    w,
                    q[j],
                ) <= j;
            let y = q[j];
            assert(wd.walk(y));
            assert(open_pre.contains(y));
            let jy = choose|jy: int| 0 <= jy < open_pre.len() && open_pre[jy] == y;
            assert(fval(wd, g, goal, c) <= fval(wd, g, goal, y));
            let suffix = q.subrange(j, q.len() as int);
            assert(suffix.len() == q.len() - j);
            assert(forall|i: int| 0 <= i < suffix.len() ==> suffix[i] == #[trigger] q[i + j]);
            assert forall|i: int|
                0 <= i < suffix.len() - 1 implies adjacent(#[trigger] suffix[i], suffix[i + 1])
                by {
                assert(adjacent(q[i + j], q[i + j + 1]));
            }
            lemma_manhattan_chain(suffix);
            assert(suffix[0] == y);
            assert(suffix[suffix.len() - 1] == c);
            assert(manhattan(y, c) <= q.len() - 1 - j);
            assert(manhattan(y, goal) <= manhattan(y, c) + manhattan(c, goal));
            assert(gat(g, w, c) + manhattan(c, goal) <= gat(g, w, y) + manhattan(y, goal));
            assert(gat(g, w, c) <= q.len() - 1);
        }
    }
}

/// Closing the popped minimal cell keeps all bookkeeping intact: the open
/// list loses exactly that cell, its distance bound is recorded, and closure
/// now holds except at it.
#[verifier::rlimit(60)]
#[verifier::spinoff_prover]
proof fn lemma_close_cell(
    wd: World,
    start: Coord,
    goal: Coord,
    seen: Seq<bool>,
    closed0: Seq<bool>,
    g: Seq<usize>,
    parent: Seq<Coord>,
    open_pre: Seq<Coord>,
    jm: int,
    c: Coord,
)
    requires
        wd.wf(),
        inv_base(wd, start, seen, closed0, g, parent, open_pre),
        inv_closure_except(wd, seen, closed0, g, goal),
        inv_dist(wd, start, closed0, g),
        dist_lb(wd, start, c, gat(g, wd.width as int, c)),
        0 <= jm < open_pre.len(),
        open_pre[jm] == c,
        c != goal,
        wd.walk(goal),
        !bat(closed0, wd.width as int, goal),
    ensures
        inv_base(
            wd,
            start,
            seen,
            closed0.update(cidx(wd.width as int, c), true),
            g,
            parent,
            open_pre.remove(jm),
        ),
        inv_closure_except(wd, seen, closed0.update(cidx(wd.width as int, c), true), g, c),
        inv_dist(wd, start, closed0.update(cidx(wd.width as int, c), true), g),
        !bat(closed0.update(cidx(wd.width as int, c), true), wd.width as int, goal),
        count_true(closed0.update(cidx(wd.width as int, c), true)) == count_true(closed0) + 1,
{
    let w = wd.width as int;
    let h = wd.height as int;
    assert(in_bounds(w, h, c)) by {
        assert(wd.walk(open_pre[jm]));
    }
    lemma_cidx_bounds(w, h, c);
    lemma_cidx_bounds(w, h, goal);
    let ic = cidx(w, c);
    let closed1 = closed0.update(ic, true);
    let open1 = open_pre.remove(jm);
    assert(!bat(closed0, w, c));
    lemma_count_set_true(closed0, ic);
    lemma_count_lt(closed0, ic);
    assert forall|c2: Coord|
        in_bounds(w, h, c2) && c2 != c implies #[trigger] cidx(w, c2) != ic by {
        if cidx(w, c2) == ic {
            lemma_cidx_injective(w, h, c2, c);
        }
    }
    assert(bat(closed1, w, c));
    assert(!bat(closed1, w, goal));
    // the open list without the popped cell still matches seen-not-closed
    assert forall|c2: Coord|
        in_bounds(w, h, c2) && #[trigger] bat(seen, w, c2) && !bat(closed1, w, c2) implies
        open1.contains(c2) by {
        lemma_cidx_bounds(w, h, c2);
        assert(c2 != c);
        assert(bat(closed0, w, c2) == bat(closed1, w, c2));
        assert(open_pre.contains(c2));
        lemma_remove_contains(open_pre, jm, c2);
        assert(c2 != open_pre[jm]);
    }
    lemma_remove_contains(open_pre, jm, c);
    assert forall|j: int|
        0 <= j < open1.len() implies in_bounds(w, h, #[trigger] open1[j]) && wd.walk(open1[j])
        && bat(seen, w, open1[j]) && !bat(closed1, w, open1[j]) by {
        open_pre.remove_ensures(jm);
        if j < jm {
            assert(open1[j] == open_pre[j]);
        } else {
            assert(open1[j] == open_pre[j + 1]);
        }
        let e = open1[j];
        lemma_cidx_bounds(w, h, e);
        assert(e != c) by {
            if e == c {
                assert(open1.contains(c));
            }
        }
    }
    // predecessor chains survive growing the closed set
    assert forall|c2: Coord|
        in_bounds(w, h, c2) && #[trigger] bat(seen, w, c2) && c2 != start implies {
        let p = pat(parent, w, c2);
        &&& gat(g, w, c2) >= 1
        &&& in_bounds(w, h, p)
        &&& wd.walk(p)
        &&& adjacent(p, c2)
        &&& bat(closed1, w, p)
        &&& gat(g, w, c2) == gat(g, w, p) + 1
    } by {
        lemma_cidx_bounds(w, h, c2);
        let p = pat(parent, w, c2);
        assert(bat(closed0, w, p));
        lemma_cidx_bounds(w, h, p);
    }
    // cost bounds
    assert forall|c2: Coord|
        in_bounds(w, h, c2) && #[trigger] bat(seen, w, c2) implies gat(g, w, c2) <= count_true(
        closed1,
    ) by {
        assert(gat(g, w, c2) <= count_true(closed0));
    }
    assert forall|c2: Coord|
        in_bounds(w, h, c2) && #[trigger] bat(closed1, w, c2) implies gat(g, w, c2) < count_true(
        closed1,
    ) by {
        lemma_cidx_bounds(w, h, c2);
        if c2 == c {
            assert(bat(seen, w, c));
            assert(gat(g, w, c) <= count_true(closed0));
        } else {
            assert(bat(closed0, w, c2));
            assert(gat(g, w, c2) < count_true(closed0));
        }
    }
    assert forall|c2: Coord|
        in_bounds(w, h, c2) && #[trigger] bat(closed1, w, c2) implies bat(seen, w, c2) by {
        lemma_cidx_bounds(w, h, c2);
        if c2 != c {
            assert(bat(closed0, w, c2));
        }
    }
    // closure holds except at the freshly closed cell
    assert forall|c2: Coord, b2: Coord|
        in_bounds(w, h, c2) && #[trigger] bat(closed1, w, c2) && c2 != c && #[trigger] adjacent(
            c2,
            b2,
        ) && wd.walk(b2) implies bat(seen, w, b2) && gat(g, w, b2) <= gat(g, w, c2) + 1 by {
        lemma_cidx_bounds(w, h, c2);
        assert(bat(closed0, w, c2));
        assert(c2 != goal);
    }
    // distance bounds
    assert forall|c2: Coord|
        in_bounds(w, h, c2) && #[trigger] bat(closed1, w, c2) implies dist_lb(
        wd,
        start,
        c2,
        gat(g, w, c2),
    ) by {
        lemma_cidx_bounds(w, h, c2);
        if c2 != c {
            assert(bat(closed0, w, c2));
        }
    }
}

/// Reads the route to a reached cell off the predecessor chain, in order,
/// excluding the start.
fn reconstruct(
    world: &World,
    start: Coord,
    c: Coord,
    seen: &Vec<bool>,
    closedv: &Vec<bool>,
    g: &Vec<usize>,
    parent: &Vec<Coord>,
    open_snap: Ghost<Seq<Coord>>,
) -> (out: Vec<Coord>)
    requires
        world.wf(),
        inv_base(*world, start, seen@, closedv@, g@, parent@, open_snap@),
        in_bounds(world.width as int, world.height as int, c),
        bat(seen@, world.width as int, c),
        start != c,
    ensures
        path_ft(*world, seq![start] + out@, start, c),
        out@.len() == gat(g@, world.width as int, c),
{
    let width = world.width;
    let height = world.height;
    let ghost w = width as int;
    let ghost h = height as int;
    let mut rev: Vec<Coord> = Vec::new();
    rev.push(c);
    let mut cur = c;
    while !(cur.x == start.x && cur.y == start.y)
        invariant
            world.wf(),
            w == width as int,
            h == height as int,
            width == world.width,
            height == world.height,
            inv_base(*world, start, seen@, closedv@, g@, parent@, open_snap@),
            in_bounds(w, h, cur),
            bat(seen@, w, cur),
            rev@.len() >= 1,
            rev@[0] == c,
            rev@[rev@.len() - 1] == cur,
            gat(g@, w, cur) + rev@.len() == gat(g@, w, c) + 1,
            forall|i: int| 0 <= i < rev@.len() ==> world.walk(#[trigger] rev@[i]),
            forall|i: int| 0 <= i < rev@.len() - 1 ==> adjacent(#[trigger] rev@[i + 1], rev@[i]),
        decreases gat(g@, w, cur),
    {
        proof {
            lemma_cidx_bounds(w, h, cur);
            assert(cur != start);
        }
        let icur = cell_index(width, height, cur);
        let pc = parent[icur];
        proof {
            assert(pat(parent@, w, cur) == pc);
            assert(adjacent(pc, cur));
        }
        rev.push(pc);
        cur = pc;
    }
    proof {
        assert(cur == start);
        assert(gat(g@, w, start) == 0);
        assert(rev@.len() == gat(g@, w, c) + 1);
    }
    let m = rev.len();
    let mut out: Vec<Coord> = Vec::new();
    let mut k: usize = 0;
    while k < m - 1
        invariant
            1 <= m == rev@.len(),
            k <= m - 1,
            out@.len() == k,
            forall|i: int| 0 <= i < k ==> #[trigger] out@[i] == rev@[m - 2 - i],
        decreases m - k,
    {
        out.push(rev[m - 2 - k]);
        k = k + 1;
    }
    proof {
        let full = seq![start] + out@;
        assert(full.len() == m);
        assert forall|i: int| 0 <= i < m implies #[trigger] full[i] == rev@[m - 1 - i] by {
            if i == 0 {
                assert(full[0] == start);
                assert(rev@[m - 1] == start);
            } else {
                assert(full[i] == out@[i - 1]);
            }
        }
        assert forall|i: int| 0 <= i < full.len() implies world.walk(#[trigger] full[i]) by {
            assert(full[i] == rev@[m - 1 - i]);
        }
        assert forall|i: int|
            0 <= i < full.len() - 1 implies adjacent(#[trigger] full[i], full[i + 1]) by {
            assert(full[i] == rev@[m - 1 - i]);
            assert(full[i + 1] == rev@[m - 2 - i]);
            assert(adjacent(rev@[(m - 2 - i) + 1], rev@[m - 2 - i]));
        }
        assert(full[0] == start);
        assert(full[full.len() - 1] == rev@[0]);
        assert(path_ft(*world, full, start, c));
    }
    out
}

/// Computes the cheapest walkable route from `start` to `goal`, if any.
///
/// On `Some(p)`, prepending the start cell to `p` gives a valid walk ending at
/// the goal, and no walk between the two is shorter: `p` is exactly the steps
/// to take, excluding the start ("already there") and including the goal. On
/// `None`, no walk between the two exists at all — an expected outcome, not an
/// error.
///
/// The contract pins existence and the optimal length only. When several
/// routes are equally short, the fixed scan order of the open list and of the
/// four directions makes the choice among them deterministic at run time, but
/// which equally short route comes back is not part of the contract.
#[verifier::rlimit(100)]
#[verifier::spinoff_prover]
pub fn find_path(world: &World, start: Coord, goal: Coord) -> (r: Option<Vec<Coord>>)
    requires
        world.wf(),
    ensures
        match r {
            Some(p) => path_ft(*world, seq![start] + p@, start, goal) && forall|q: Seq<Coord>|
                #[trigger] path_ft(*world, q, start, goal) ==> q.len() >= p@.len() + 1,
            None => forall|q: Seq<Coord>| !path_ft(*world, q, start, goal),
        },
{
    let width = world.width;
    let height = world.height;
    let ghost w = width as int;
    let ghost h = height as int;
    if !world.walkable(start) || !world.walkable(goal) {
        proof {
            assert forall|q: Seq<Coord>| !path_ft(*world, q, start, goal) by {
                if path_ft(*world, q, start, goal) {
                    assert(world.walk(q[0]));
                    assert(world.walk(q[q.len() - 1]));
                }
            }
        }
        return None;
    }
    if start.x == goal.x && start.y == goal.y {
        let out: Vec<Coord> = Vec::new();
        proof {
            let full = seq![start] + out@;
            assert(full.len() == 1);
            assert(full[0] == start);
            assert(path_ft(*world, full, start, goal));
            assert forall|q: Seq<Coord>| #[trigger] path_ft(*world, q, start, goal) implies q.len()
                >= out@.len() + 1 by {}
        }
        return Some(out);
    }
    let n = width * height;
    let mut seen: Vec<bool> = filled(false, n);
    let mut closedv: Vec<bool> = filled(false, n);
    let mut g: Vec<usize> = filled(0usize, n);
    let mut parent: Vec<Coord> = filled(start, n);
    let mut openv: Vec<Coord> = Vec::new();
    proof {
        lemma_cidx_bounds(w, h, start);
        lemma_cidx_bounds(w, h, goal);
    }
    let istart = cell_index(width, height, start);
    seen.set(istart, true);
    openv.push(start);
    proof {
        lemma_count_false(closedv@);
        assert(openv@[0] == start);
        assert forall|c2: Coord|
            in_bounds(w, h, c2) && #[trigger] bat(seen@, w, c2) implies c2 == start by {
            lemma_cidx_bounds(w, h, c2);
            if c2 != start && cidx(w, c2) == istart as int {
                lemma_cidx_injective(w, h, c2, start);
            }
        }
        assert forall|c2: Coord| in_bounds(w, h, c2) implies !bat(closedv@, w, c2) && #[trigger] gat(
            g@,
            w,
            c2,
        ) == 0 by {
            lemma_cidx_bounds(w, h, c2);
        }
        assert forall|c2: Coord|
            in_bounds(w, h, c2) && #[trigger] bat(seen@, w, c2) && !bat(closedv@, w, c2) implies
            openv@.contains(c2) by {
            assert(c2 == start);
            assert(openv@[0] == start);
        }
        assert(seen@.len() == w * h);
        assert(bat(seen@, w, start));
        assert(gat(g@, w, start) == 0);
        assert(forall|c2: Coord|
            in_bounds(w, h, c2) && #[trigger] bat(seen@, w, c2) ==> world.walk(c2));
        assert forall|c2: Coord|
            in_bounds(w, h, c2) && #[trigger] bat(closedv@, w, c2) implies bat(seen@, w, c2) by {
            lemma_cidx_bounds(w, h, c2);
        }
        assert forall|c2: Coord|
            in_bounds(w, h, c2) && #[trigger] bat(seen@, w, c2) && c2 != start implies false by {
            assert(c2 == start);
        }
        assert forall|j: int|
            0 <= j < openv@.len() implies in_bounds(w, h, #[trigger] openv@[j]) && world.walk(
            openv@[j],
        ) && bat(seen@, w, openv@[j]) && !bat(closedv@, w, openv@[j]) by {
            assert(openv@[j] == start);
        }
        assert(forall|c2: Coord|
            in_bounds(w, h, c2) && #[trigger] bat(seen@, w, c2) ==> gat(g@, w, c2) <= count_true(
                closedv@,
            ));
        assert(forall|c2: Coord|
            in_bounds(w, h, c2) && #[trigger] bat(closedv@, w, c2) ==> gat(g@, w, c2)
                < count_true(closedv@));
        assert(inv_base(*world, start, seen@, closedv@, g@, parent@, openv@));
        assert(inv_closure_except(*world, seen@, closedv@, g@, goal));
        assert(inv_dist(*world, start, closedv@, g@));
    }
    loop
        invariant
            world.wf(),
            w == width as int,
            h == height as int,
            width == world.width,
            height == world.height,
            n == width * height,
            world.walk(start),
            world.walk(goal),
            start != goal,
            inv_base(*world, start, seen@, closedv@, g@, parent@, openv@),
            inv_closure_except(*world, seen@, closedv@, g@, goal),
            inv_dist(*world, start, closedv@, g@),
            !bat(closedv@, w, goal),
        decreases world.width * world.height - count_true(closedv@),
    {
        proof {
            lemma_cidx_bounds(w, h, goal);
        }
        if openv.len() == 0 {
            proof {
                lemma_no_path(*world, start, goal, seen@, closedv@, g@, parent@, openv@);
            }
            return None;
        }
        proof {
            assert forall|j: int|
                0 <= j < openv@.len() implies in_bounds(w, h, #[trigger] openv@[j]) && gat(
                g@,
                w,
                openv@[j],
            ) <= world.width * world.height by {
                assert(bat(seen@, w, openv@[j]));
            }
        }
        let jm = pick_min_f(world, goal, &openv, &g);
        let c = openv[jm];
        let ghost open_pre = openv@;
        proof {
            lemma_cidx_bounds(w, h, c);
            assert(open_pre.contains(c)) by {
                assert(open_pre[jm as int] == c);
            }
            lemma_pop_bound(*world, start, goal, seen@, closedv@, g@, parent@, open_pre, c);
        }
        if c.x == goal.x && c.y == goal.y {
            let out = reconstruct(world, start, c, &seen, &closedv, &g, &parent, Ghost(open_pre));
            proof {
                assert forall|q: Seq<Coord>| #[trigger] path_ft(*world, q, start, goal) implies
                    q.len() >= out@.len() + 1 by {
                    assert(path_ft(*world, q, start, c));
                }
            }
            return Some(out);
        }
        openv.remove(jm);
        let ic = cell_index(width, height, c);
        proof {
            lemma_close_cell(
                *world,
                start,
                goal,
                seen@,
                closedv@,
                g@,
                parent@,
                open_pre,
                jm as int,
                c,
            );
        }
        closedv.set(ic, true);
        let ghost gc0 = gat(g@, w, c);
        let mut step: usize = 0;
        while step < 4
            invariant
                world.wf(),
                w == width as int,
                h == height as int,
                width == world.width,
                height == world.height,
                step <= 4,
                world.walk(start),
                world.walk(goal),
                start != goal,
                in_bounds(w, h, c),
                world.walk(c),
                bat(closedv@, w, c),
                c != goal,
                !bat(closedv@, w, goal),
                inv_base(*world, start, seen@, closedv@, g@, parent@, openv@),
                inv_closure_except(*world, seen@, closedv@, g@, c),
                inv_dist(*world, start, closedv@, g@),
                gat(g@, w, c) == gc0,
                forall|dd: crate::grid::Dir|
                    dd.index_spec() < step ==> {
                        let (bx, by) = dd.step_spec(c.x as int, c.y as int);
                        (0 <= bx < w && 0 <= by < h && world.walk(
                            Coord { x: bx as usize, y: by as usize },
                        )) ==> bat(seen@, w, Coord { x: bx as usize, y: by as usize }) && gat(
                            g@,
                            w,
                            Coord { x: bx as usize, y: by as usize },
                        ) <= gc0 + 1
                    },
            decreases 4 - step,
        {
            let d = match step {
                0 => crate::grid::Dir::North,
                1 => crate::grid::Dir::South,
                2 => crate::grid::Dir::East,
                _ => crate::grid::Dir::West,
            };
            proof {
                assert(d.index_spec() == step as int);
            }
            let bo: Option<Coord> = match d {
                crate::grid::Dir::North => if c.y + 1 < height {
                    Some(Coord { x: c.x, y: c.y + 1 })
                } else {
                    None
                },
                crate::grid::Dir::South => if c.y > 0 {
                    Some(Coord { x: c.x, y: c.y - 1 })
                } else {
                    None
                },
                crate::grid::Dir::East => if c.x + 1 < width {
                    Some(Coord { x: c.x + 1, y: c.y })
                } else {
                    None
                },
                crate::grid::Dir::West => if c.x > 0 {
                    Some(Coord { x: c.x - 1, y: c.y })
                } else {
                    None
                },
            };
            match bo {
                None => {},
                Some(b) => {
                    if world.walkable(b) {
                        let ghost seen_pre = seen@;
                        let ghost g_pre = g@;
                        proof {
                            assert(adjacent(c, b));
                        }
                        relax_neighbor(
                            world,
                            start,
                            &mut seen,
                            &closedv,
                            &mut g,
                            &mut parent,
                            &mut openv,
                            c,
                            b,
                        );
                        proof {
                            assert(gat(g@, w, c) == gc0);
                            assert forall|dd: crate::grid::Dir|
                                dd.index_spec() < step + 1 implies {
                                let (bx, by) = dd.step_spec(c.x as int, c.y as int);
                                (0 <= bx < w && 0 <= by < h && world.walk(
                                    Coord { x: bx as usize, y: by as usize },
                                )) ==> bat(seen@, w, Coord { x: bx as usize, y: by as usize })
                                    && gat(g@, w, Coord { x: bx as usize, y: by as usize }) <= gc0
                                    + 1
                            } by {
                                let (bx, by) = dd.step_spec(c.x as int, c.y as int);
                                if 0 <= bx < w && 0 <= by < h {
                                    let bb = Coord { x: bx as usize, y: by as usize };
                                    if world.walk(bb) {
                                        if dd == d {
                                            assert(bb == b);
                                        } else if dd.index_spec() < step {
                                            assert(bat(seen_pre, w, bb) && gat(g_pre, w, bb)
                                                <= gc0 + 1);
                                        }
                                    }
                                }
                            }
                        }
                    } else {
                        proof {
                            assert(!world.walk(b));
                        }
                    }
                },
            }
            step = step + 1;
        }
        proof {
            // the popped cell's closure is complete: full closure again
            assert forall|c2: Coord, b2: Coord|
                in_bounds(w, h, c2) && #[trigger] bat(closedv@, w, c2) && c2 != goal
                    && #[trigger] adjacent(c2, b2) && world.walk(b2) implies bat(seen@, w, b2)
                && gat(g@, w, b2) <= gat(g@, w, c2) + 1 by {
                if c2 == c {
                    let dd = crate::grid::dir_of(c, b2);
                    let (bx, by) = dd.step_spec(c.x as int, c.y as int);
                    assert(bx == b2.x as int && by == b2.y as int);
                    assert(dd.index_spec() < 4);
                }
            }
            assert(inv_closure_except(*world, seen@, closedv@, g@, goal));
        }
    }
}

} // verus!
