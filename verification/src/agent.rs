//! The agent-side decision at the heart of seeking work: given the candidates
//! a spatial query produced, pick the first one a route exists to, together
//! with that route. The caller then requests a reservation on the pick and,
//! once granted, walks the route.

use vstd::prelude::*;
use crate::grid::Coord;
use crate::pathfind::{find_path, path_ft};
use crate::worldgen::World;

verus! {

/// Walks the candidate list in order and returns the first whose position is
/// reachable from `origin`, with the cheapest route to it (excluding
/// `origin`, including the target cell). `None` means no candidate is
/// reachable at all — the caller treats every candidate as currently
/// unavailable.
pub fn select_first_reachable(world: &World, origin: Coord, candidates: &Vec<(Coord, u64)>) -> (r:
    Option<(usize, Vec<Coord>)>)
    requires
        world.wf(),
    ensures
        match r {
            Some((j, path)) => {
                &&& j < candidates@.len()
                &&& path_ft(*world, seq![origin] + path@, origin, candidates@[j as int].0)
                &&& forall|q: Seq<Coord>|
                    #[trigger] path_ft(*world, q, origin, candidates@[j as int].0) ==> q.len()
                        >= path@.len() + 1
                &&& forall|j2: int, q: Seq<Coord>|
                    0 <= j2 < j ==> !(#[trigger] path_ft(*world, q, origin, candidates@[j2].0))
            },
            None => forall|j2: int, q: Seq<Coord>|
                0 <= j2 < candidates@.len() ==> !(#[trigger] path_ft(
                    *world,
                    q,
                    origin,
                    candidates@[j2].0,
                )),
        },
{
    let mut j: usize = 0;
    let len = candidates.len();
    while j < len
        invariant
            j <= len,
            len == candidates@.len(),
            world.wf(),
            forall|j2: int, q: Seq<Coord>|
                0 <= j2 < j ==> !(#[trigger] path_ft(*world, q, origin, candidates@[j2].0)),
        decreases len - j,
    {
        let target = candidates[j].0;
        match find_path(world, origin, target) {
            Some(path) => {
                return Some((j, path));
            },
            None => {},
        }
        j = j + 1;
    }
    None
}

} // verus!
