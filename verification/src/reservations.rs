//! The reservation manager: arbitrates competing claims on tile-bound
//! resources so that at most one requester owns a resource at a time.
//! Resources are discovered through a nearest-first spatial query that sees
//! only unclaimed resources; requests are processed one at a time in arrival
//! order, and the grant check and the state transition are one step.

use vstd::prelude::*;
use crate::grid::Coord;

verus! {

/// Coordinates this large still square and sum inside a `u64` distance.
pub const COORD_LIMIT: usize = 0x7fff_ffff;

/// The lifecycle state of a resource: free for discovery and claiming, or
/// exclusively owned.
#[derive(Clone, Copy, PartialEq, Eq, Structural, Debug)]
pub enum ResourceState {
    Reservable,
    Reserved { owner: u64 },
}

/// A tile-bound resource the manager arbitrates.
#[derive(Clone, Copy, PartialEq, Eq, Structural, Debug)]
pub struct Resource {
    pub id: u64,
    pub pos: Coord,
    pub state: ResourceState,
}

/// One claim: who asks, and for which resource.
#[derive(Clone, Copy, PartialEq, Eq, Structural, Debug)]
pub struct ReservationRequest {
    pub requester: u64,
    pub target: u64,
}

/// The per-request outcome, reported to the caller rather than dropped.
#[derive(Clone, Copy, PartialEq, Eq, Structural, Debug)]
pub enum RequestOutcome {
    Granted,
    Rejected,
}

/// A release or consume naming a resource not in the required state: an
/// ownership-tracking fault of the caller, reported loudly.
#[derive(Clone, Copy, PartialEq, Eq, Structural, Debug)]
pub enum ReservationError {
    InvalidTarget,
}

/// No two records share an id.
pub open spec fn ids_unique(s: Seq<Resource>) -> bool {
    forall|i: int, j: int| 0 <= i < j < s.len() ==> s[i].id != s[j].id
}

/// Every record's position is within the coordinate limit.
pub open spec fn coords_ok(s: Seq<Resource>) -> bool {
    forall|i: int|
        0 <= i < s.len() ==> (#[trigger] s[i]).pos.x <= COORD_LIMIT && s[i].pos.y <= COORD_LIMIT
}

/// Some record carries this id.
pub open spec fn has_id(s: Seq<Resource>, id: u64) -> bool {
    exists|i: int| 0 <= i < s.len() && (#[trigger] s[i]).id == id
}

/// The index of the record with this id.
pub open spec fn idx_of(s: Seq<Resource>, id: u64) -> int {
    choose|i: int| 0 <= i < s.len() && (#[trigger] s[i]).id == id
}

/// Some record carries this id and is free to claim.
pub open spec fn is_reservable(s: Seq<Resource>, id: u64) -> bool {
    exists|i: int|
        0 <= i < s.len() && (#[trigger] s[i]).id == id && s[i].state == ResourceState::Reservable
}

/// Some record carries this id and is owned, by anyone.
pub open spec fn is_reserved(s: Seq<Resource>, id: u64) -> bool {
    exists|i: int|
        0 <= i < s.len() && (#[trigger] s[i]).id == id && s[i].state matches
            ResourceState::Reserved { .. }
}

/// The record with this id is owned by exactly this requester.
pub open spec fn is_reserved_by(s: Seq<Resource>, id: u64, owner: u64) -> bool {
    exists|i: int|
        0 <= i < s.len() && (#[trigger] s[i]).id == id && s[i].state == (ResourceState::Reserved {
            owner,
        })
}

/// Whether a request for `target` is accepted against state `s`.
pub open spec fn spec_granted(s: Seq<Resource>, target: u64) -> bool {
    is_reservable(s, target)
}

/// The state after one request: on acceptance the target flips to `Reserved`
/// with the requester as owner, in the same step; otherwise nothing changes.
pub open spec fn spec_grant(s: Seq<Resource>, requester: u64, target: u64) -> Seq<Resource> {
    if spec_granted(s, target) {
        let i = idx_of(s, target);
        s.update(
            i,
            Resource { id: s[i].id, pos: s[i].pos, state: ResourceState::Reserved {
                owner: requester,
            } },
        )
    } else {
        s
    }
}

/// The state after a release: the owned target returns to `Reservable`.
pub open spec fn spec_release(s: Seq<Resource>, target: u64) -> Seq<Resource> {
    if is_reserved(s, target) {
        let i = idx_of(s, target);
        s.update(i, Resource { id: s[i].id, pos: s[i].pos, state: ResourceState::Reservable })
    } else {
        s
    }
}

/// The state after a consume: the target's record is gone for good.
pub open spec fn spec_consume(s: Seq<Resource>, target: u64) -> Seq<Resource> {
    if has_id(s, target) {
        s.remove(idx_of(s, target))
    } else {
        s
    }
}

/// How many records are free to claim.
pub open spec fn count_reservable(s: Seq<Resource>) -> nat
    decreases s.len(),
{
    if s.len() == 0 {
        0
    } else {
        count_reservable(s.drop_last()) + (if s.last().state == ResourceState::Reservable {
            1nat
        } else {
            0nat
        })
    }
}

/// The squared Euclidean distance between two cells, over the integers.
pub open spec fn sdist2(a: Coord, b: Coord) -> int {
    (a.x - b.x) * (a.x - b.x) + (a.y - b.y) * (a.y - b.y)
}

/// What a nearest-first query returns: one entry per free record, nearest
/// first, truncated to `k`; anything free and left out is at least as far as
/// everything listed. Owned records never appear.
pub open spec fn nearest_k_post(
    s: Seq<Resource>,
    origin: Coord,
    k: int,
    r: Seq<(Coord, u64)>,
) -> bool {
    &&& r.len() == if k < count_reservable(s) {
        k
    } else {
        count_reservable(s) as int
    }
    &&& entries_free(s, r)
    &&& ids_distinct(r)
    &&& sorted_by_dist(origin, r)
    &&& forall|i: int|
        0 <= i < s.len() && (#[trigger] s[i]).state == ResourceState::Reservable && not_listed(
            r,
            s[i].id,
        ) ==> all_nearer_than(origin, r, s[i].pos)
}

/// A free record witnesses a positive reservable count.
proof fn lemma_count_reservable_pos(s: Seq<Resource>, i: int)
    requires
        0 <= i < s.len(),
        s[i].state == ResourceState::Reservable,
    ensures
        count_reservable(s) >= 1,
    decreases s.len(),
{
    if i < s.len() - 1 {
        lemma_count_reservable_pos(s.drop_last(), i);
    }
}

/// The serializer of claims. It owns the resource records; everything else
/// reads reservation state only through its queries.
pub struct ReservationManager {
    resources: Vec<Resource>,
}

impl ReservationManager {
    /// The record list seen by specifications.
    pub closed spec fn view(&self) -> Seq<Resource> {
        self.resources@
    }

    /// Ids are unique and positions bounded.
    pub open spec fn wf(&self) -> bool {
        ids_unique(self@) && coords_ok(self@)
    }

    /// An empty pool.
    pub fn new() -> (r: ReservationManager)
        ensures
            r.wf(),
            r@ == Seq::<Resource>::empty(),
    {
        let r = ReservationManager { resources: Vec::new() };
        proof {
            assert(r@ =~= Seq::<Resource>::empty());
        }
        r
    }

    /// Admits a freshly spawned resource to the reservable pool. Rejects an id
    /// already in use, leaving the pool unchanged.
    pub fn add_resource(&mut self, id: u64, pos: Coord) -> (r: bool)
        requires
            old(self).wf(),
            pos.x <= COORD_LIMIT,
            pos.y <= COORD_LIMIT,
        ensures
            final(self).wf(),
            r == !has_id(old(self)@, id),
            r ==> final(self)@ == old(self)@.push(
                Resource { id, pos, state: ResourceState::Reservable },
            ),
            !r ==> final(self)@ == old(self)@,
    {
        let mut i: usize = 0;
        let len = self.resources.len();
        while i < len
            invariant
                i <= len,
                len == self@.len(),
                self@ == old(self)@,
                ids_unique(self@),
                coords_ok(self@),
                forall|i2: int| 0 <= i2 < i ==> (#[trigger] self@[i2]).id != id,
            decreases len - i,
        {
            if self.resources[i].id == id {
                proof {
                    assert(has_id(self@, id)) by {
                        assert(self@[i as int].id == id);
                    }
                }
                return false;
            }
            i = i + 1;
        }
        proof {
            assert(!has_id(self@, id));
        }
        let ghost s0 = self@;
        self.resources.push(Resource { id, pos, state: ResourceState::Reservable });
        proof {
            assert forall|i2: int, j2: int|
                0 <= i2 < j2 < self@.len() implies self@[i2].id != self@[j2].id by {
                if j2 == self@.len() - 1 {
                    assert(self@[i2] == s0[i2]);
                }
            }
        }
        true
    }

    /// Processes one claim against the current pool: accepted exactly when the
    /// target is currently reservable, in which case the target is owned by
    /// the requester from this step on and disappears from spatial queries;
    /// any other request — already owned, or no such id — is rejected and
    /// changes nothing.
    pub fn request_reservation(&mut self, requester: u64, target: u64) -> (r: RequestOutcome)
        requires
            old(self).wf(),
        ensures
            final(self).wf(),
            final(self)@ == spec_grant(old(self)@, requester, target),
            r == RequestOutcome::Granted <==> spec_granted(old(self)@, target),
            r == RequestOutcome::Granted ==> is_reserved_by(final(self)@, target, requester),
    {
        let ghost s0 = self@;
        let mut i: usize = 0;
        let len = self.resources.len();
        while i < len
            invariant
                i <= len,
                len == self@.len(),
                self@ == s0,
                s0 == old(self)@,
                ids_unique(s0),
                coords_ok(s0),
                forall|i2: int| 0 <= i2 < i ==> (#[trigger] s0[i2]).id != target,
            decreases len - i,
        {
            let res = self.resources[i];
            if res.id == target {
                match res.state {
                    ResourceState::Reservable => {
                        proof {
                            assert(spec_granted(s0, target)) by {
                                assert(s0[i as int].id == target && s0[i as int].state
                                    == ResourceState::Reservable);
                            }
                            let i0 = idx_of(s0, target);
                            assert(0 <= i0 < s0.len() && s0[i0].id == target);
                            if i0 != i as int {
                                assert(s0[i0].id != s0[i as int].id);
                                assert(false);
                            }
                        }
                        let updated = Resource {
                            id: res.id,
                            pos: res.pos,
                            state: ResourceState::Reserved { owner: requester },
                        };
                        self.resources.set(i, updated);
                        proof {
                            assert(self@ == spec_grant(s0, requester, target));
                            assert(is_reserved_by(self@, target, requester)) by {
                                assert(self@[i as int].id == target && self@[i as int].state
                                    == (ResourceState::Reserved { owner: requester }));
                            }
                            assert forall|i2: int, j2: int|
                                0 <= i2 < j2 < self@.len() implies self@[i2].id != self@[j2].id by {
                                assert(self@[i2].id == s0[i2].id);
                                assert(self@[j2].id == s0[j2].id);
                            }
                            assert forall|i2: int|
                                0 <= i2 < self@.len() implies (#[trigger] self@[i2]).pos.x
                                <= COORD_LIMIT && self@[i2].pos.y <= COORD_LIMIT by {
                                assert(self@[i2].pos == s0[i2].pos);
                            }
                        }
                        return RequestOutcome::Granted;
                    },
                    ResourceState::Reserved { .. } => {
                        proof {
                            assert(!spec_granted(s0, target)) by {
                                if spec_granted(s0, target) {
                                    let i0 = choose|i0: int|
                                        0 <= i0 < s0.len() && (#[trigger] s0[i0]).id == target
                                            && s0[i0].state == ResourceState::Reservable;
                                    if i0 != i as int {
                                        assert(s0[i0].id != s0[i as int].id);
                                    }
                                }
                            }
                        }
                        return RequestOutcome::Rejected;
                    },
                }
            }
            i = i + 1;
        }
        proof {
            assert(!spec_granted(s0, target)) by {
                if spec_granted(s0, target) {
                    let i0 = choose|i0: int|
                        0 <= i0 < s0.len() && (#[trigger] s0[i0]).id == target && s0[i0].state
                            == ResourceState::Reservable;
                    assert(s0[i0].id != target);
                }
            }
        }
        RequestOutcome::Rejected
    }

    /// Returns an owned target to the reservable pool, re-admitting it to
    /// spatial queries; releasing anything not currently owned is a fault.
    pub fn release(&mut self, target: u64) -> (r: Result<(), ReservationError>)
        requires
            old(self).wf(),
        ensures
            final(self).wf(),
            final(self)@ == spec_release(old(self)@, target),
            r is Ok <==> is_reserved(old(self)@, target),
            r is Err ==> r == Result::<(), ReservationError>::Err(ReservationError::InvalidTarget)
                && final(self)@ == old(self)@,
    {
        let ghost s0 = self@;
        let mut i: usize = 0;
        let len = self.resources.len();
        while i < len
            invariant
                i <= len,
                len == self@.len(),
                self@ == s0,
                s0 == old(self)@,
                ids_unique(s0),
                coords_ok(s0),
                forall|i2: int| 0 <= i2 < i ==> (#[trigger] s0[i2]).id != target,
            decreases len - i,
        {
            let res = self.resources[i];
            if res.id == target {
                match res.state {
                    ResourceState::Reserved { .. } => {
                        proof {
                            assert(is_reserved(s0, target)) by {
                                assert(s0[i as int].id == target && s0[i as int].state matches
                                    ResourceState::Reserved { .. });
                            }
                            let i0 = idx_of(s0, target);
                            assert(0 <= i0 < s0.len() && s0[i0].id == target);
                            if i0 != i as int {
                                assert(s0[i0].id != s0[i as int].id);
                                assert(false);
                            }
                        }
                        let updated = Resource {
                            id: res.id,
                            pos: res.pos,
                            state: ResourceState::Reservable,
                        };
                        self.resources.set(i, updated);
                        proof {
                            assert(self@ == spec_release(s0, target));
                            assert forall|i2: int, j2: int|
                                0 <= i2 < j2 < self@.len() implies self@[i2].id != self@[j2].id by {
                                assert(self@[i2].id == s0[i2].id);
                                assert(self@[j2].id == s0[j2].id);
                            }
                            assert forall|i2: int|
                                0 <= i2 < self@.len() implies (#[trigger] self@[i2]).pos.x
                                <= COORD_LIMIT && self@[i2].pos.y <= COORD_LIMIT by {
                                assert(self@[i2].pos == s0[i2].pos);
                            }
                        }
                        return Ok(());
                    },
                    ResourceState::Reservable => {
                        proof {
                            assert(!is_reserved(s0, target)) by {
                                if is_reserved(s0, target) {
                                    let i0 = choose|i0: int|
                                        0 <= i0 < s0.len() && (#[trigger] s0[i0]).id == target
                                            && s0[i0].state matches ResourceState::Reserved { .. };
                                    if i0 != i as int {
                                        assert(s0[i0].id != s0[i as int].id);
                                    }
                                }
                            }
                        }
                        return Err(ReservationError::InvalidTarget);
                    },
                }
            }
            i = i + 1;
        }
        proof {
            assert(!is_reserved(s0, target)) by {
                if is_reserved(s0, target) {
                    let i0 = choose|i0: int|
                        0 <= i0 < s0.len() && (#[trigger] s0[i0]).id == target && s0[i0].state
                            matches ResourceState::Reserved { .. };
                    assert(s0[i0].id != target);
                }
            }
        }
        Err(ReservationError::InvalidTarget)
    }

    /// Removes a consumed resource for good: no later operation may reference
    /// it; consuming an id that does not exist is a fault.
    pub fn consume(&mut self, target: u64) -> (r: Result<(), ReservationError>)
        requires
            old(self).wf(),
        ensures
            final(self).wf(),
            final(self)@ == spec_consume(old(self)@, target),
            r is Ok <==> has_id(old(self)@, target),
            !has_id(final(self)@, target),
            r is Err ==> r == Result::<(), ReservationError>::Err(ReservationError::InvalidTarget)
                && final(self)@ == old(self)@,
    {
        let ghost s0 = self@;
        let mut i: usize = 0;
        let len = self.resources.len();
        while i < len
            invariant
                i <= len,
                len == self@.len(),
                self@ == s0,
                s0 == old(self)@,
                ids_unique(s0),
                coords_ok(s0),
                forall|i2: int| 0 <= i2 < i ==> (#[trigger] s0[i2]).id != target,
            decreases len - i,
        {
            if self.resources[i].id == target {
                proof {
                    assert(has_id(s0, target)) by {
                        assert(s0[i as int].id == target);
                    }
                    let i0 = idx_of(s0, target);
                    assert(0 <= i0 < s0.len() && s0[i0].id == target);
                    if i0 != i as int {
                        assert(s0[i0].id != s0[i as int].id);
                        assert(false);
                    }
                }
                self.resources.remove(i);
                proof {
                    s0.remove_ensures(i as int);
                    assert(self@ == spec_consume(s0, target));
                    assert forall|i2: int, j2: int|
                        0 <= i2 < j2 < self@.len() implies self@[i2].id != self@[j2].id by {
                        if i2 < i as int {
                            assert(self@[i2] == s0[i2]);
                        } else {
                            assert(self@[i2] == s0[i2 + 1]);
                        }
                        if j2 < i as int {
                            assert(self@[j2] == s0[j2]);
                        } else {
                            assert(self@[j2] == s0[j2 + 1]);
                        }
                    }
                    assert forall|i2: int|
                        0 <= i2 < self@.len() implies (#[trigger] self@[i2]).pos.x <= COORD_LIMIT
                        && self@[i2].pos.y <= COORD_LIMIT by {
                        if i2 < i as int {
                            assert(self@[i2] == s0[i2]);
                        } else {
                            assert(self@[i2] == s0[i2 + 1]);
                        }
                    }
                    assert forall|i2: int|
                        0 <= i2 < self@.len() implies (#[trigger] self@[i2]).id != target by {
                        if i2 < i as int {
                            assert(self@[i2] == s0[i2]);
                        } else {
                            assert(self@[i2] == s0[i2 + 1]);
                            assert(s0[i2 + 1].id != s0[i as int].id);
                        }
                    }
                    assert(!has_id(self@, target));
                }
                return Ok(());
            }
            i = i + 1;
        }
        proof {
            assert(!has_id(s0, target)) by {
                if has_id(s0, target) {
                    let i0 = choose|i0: int| 0 <= i0 < s0.len() && (#[trigger] s0[i0]).id
                        == target;
                    assert(s0[i0].id != target);
                }
            }
        }
        Err(ReservationError::InvalidTarget)
    }
}

/// The entry records a free resource of the pool: same id, same position.
pub open spec fn entry_matches(s: Seq<Resource>, e: (Coord, u64)) -> bool {
    exists|i: int|
        0 <= i < s.len() && (#[trigger] s[i]).id == e.1 && s[i].pos == e.0 && s[i].state
            == ResourceState::Reservable
}

/// Every listed entry records a free resource of the pool.
pub open spec fn entries_free(s: Seq<Resource>, v: Seq<(Coord, u64)>) -> bool {
    forall|j: int| 0 <= j < v.len() ==> entry_matches(s, #[trigger] v[j])
}

/// The list holds an entry with this id and position.
pub open spec fn listed_with(v: Seq<(Coord, u64)>, id: u64, pos: Coord) -> bool {
    exists|j: int| 0 <= j < v.len() && (#[trigger] v[j]).1 == id && v[j].0 == pos
}

/// Every free resource of the pool is listed.
pub open spec fn covers_free(s: Seq<Resource>, v: Seq<(Coord, u64)>) -> bool {
    forall|i: int|
        0 <= i < s.len() && (#[trigger] s[i]).state == ResourceState::Reservable ==> listed_with(
            v,
            s[i].id,
            s[i].pos,
        )
}

/// No two listed entries share an id.
pub open spec fn ids_distinct(v: Seq<(Coord, u64)>) -> bool {
    forall|j1: int, j2: int| 0 <= j1 < j2 < v.len() ==> v[j1].1 != v[j2].1
}

/// The list runs from nearest to farthest from the origin.
pub open spec fn sorted_by_dist(origin: Coord, v: Seq<(Coord, u64)>) -> bool {
    forall|j1: int, j2: int|
        0 <= j1 <= j2 < v.len() ==> sdist2(origin, (#[trigger] v[j1]).0) <= sdist2(
            origin,
            (#[trigger] v[j2]).0,
        )
}

/// No listed entry carries this id.
pub open spec fn not_listed(v: Seq<(Coord, u64)>, id: u64) -> bool {
    forall|j: int| 0 <= j < v.len() ==> (#[trigger] v[j]).1 != id
}

/// Every listed entry is at most as far from the origin as `p`.
pub open spec fn all_nearer_than(origin: Coord, v: Seq<(Coord, u64)>, p: Coord) -> bool {
    forall|j: int|
        0 <= j < v.len() ==> sdist2(origin, (#[trigger] v[j]).0) <= sdist2(origin, p)
}

/// Swapping two entries keeps the three list relations.
#[verifier::rlimit(100)]
#[verifier::spinoff_prover]
proof fn lemma_swap_props(
    s: Seq<Resource>,
    v1: Seq<(Coord, u64)>,
    v2: Seq<(Coord, u64)>,
    a: int,
    b: int,
)
    requires
        0 <= a < v1.len(),
        0 <= b < v1.len(),
        v2 == v1.update(a, v1[b]).update(b, v1[a]),
        entries_free(s, v1),
        covers_free(s, v1),
        ids_distinct(v1),
    ensures
        entries_free(s, v2),
        covers_free(s, v2),
        ids_distinct(v2),
        v2.len() == v1.len(),
{
    assert forall|j: int| 0 <= j < v2.len() implies entry_matches(s, #[trigger] v2[j]) by {
        if j == b {
            assert(v2[j] == v1[a]);
            assert(entry_matches(s, v1[a]));
        } else if j == a {
            assert(v2[j] == v1[b]);
            assert(entry_matches(s, v1[b]));
        } else {
            assert(v2[j] == v1[j]);
            assert(entry_matches(s, v1[j]));
        }
    }
    assert forall|i: int|
        0 <= i < s.len() && (#[trigger] s[i]).state == ResourceState::Reservable implies
        listed_with(v2, s[i].id, s[i].pos) by {
        assert(listed_with(v1, s[i].id, s[i].pos));
        let j0 = choose|j0: int|
            0 <= j0 < v1.len() && (#[trigger] v1[j0]).1 == s[i].id && v1[j0].0 == s[i].pos;
        if j0 == a {
            assert(v2[b] == v1[a]);
            assert(v2[b].1 == s[i].id && v2[b].0 == s[i].pos);
        } else if j0 == b {
            assert(v2[a] == v1[b]);
            assert(v2[a].1 == s[i].id && v2[a].0 == s[i].pos);
        } else {
            assert(v2[j0] == v1[j0]);
            assert(v2[j0].1 == s[i].id && v2[j0].0 == s[i].pos);
        }
    }
    assert forall|j1: int, j2: int| 0 <= j1 < j2 < v2.len() implies v2[j1].1 != v2[j2].1 by {
        let m1: int = if j1 == a {
            b
        } else if j1 == b {
            a
        } else {
            j1
        };
        let m2: int = if j2 == a {
            b
        } else if j2 == b {
            a
        } else {
            j2
        };
        assert(v2[j1] == v1[m1]);
        assert(v2[j2] == v1[m2]);
        assert(m1 != m2);
        if m1 < m2 {
            assert(v1[m1].1 != v1[m2].1);
        } else {
            assert(v1[m2].1 != v1[m1].1);
        }
    }
}

/// Computes the squared Euclidean distance between two bounded cells.
fn dist2(a: Coord, b: Coord) -> (r: u64)
    requires
        a.x <= COORD_LIMIT,
        a.y <= COORD_LIMIT,
        b.x <= COORD_LIMIT,
        b.y <= COORD_LIMIT,
    ensures
        r as int == sdist2(a, b),
{
    let dx = if a.x >= b.x {
        a.x - b.x
    } else {
        b.x - a.x
    };
    let dy = if a.y >= b.y {
        a.y - b.y
    } else {
        b.y - a.y
    };
    let dx64 = dx as u64;
    let dy64 = dy as u64;
    proof {
        assert((dx64 as int) * (dx64 as int) == (a.x - b.x) * (a.x - b.x) && (dx64 as int) * (
        dx64 as int) <= 0x7fff_ffff * 0x7fff_ffff) by (nonlinear_arith)
            requires
                dx64 == if a.x >= b.x {
                    a.x - b.x
                } else {
                    b.x - a.x
                },
                a.x <= 0x7fff_ffff,
                b.x <= 0x7fff_ffff,
                0 <= a.x,
                0 <= b.x,
        ;
        assert((dy64 as int) * (dy64 as int) == (a.y - b.y) * (a.y - b.y) && (dy64 as int) * (
        dy64 as int) <= 0x7fff_ffff * 0x7fff_ffff) by (nonlinear_arith)
            requires
                dy64 == if a.y >= b.y {
                    a.y - b.y
                } else {
                    b.y - a.y
                },
                a.y <= 0x7fff_ffff,
                b.y <= 0x7fff_ffff,
                0 <= a.y,
                0 <= b.y,
        ;
    }
    dx64 * dx64 + dy64 * dy64
}

/// Positions of listed entries stay within the coordinate limit.
pub open spec fn entries_bounded(v: Seq<(Coord, u64)>) -> bool {
    forall|j: int|
        0 <= j < v.len() ==> (#[trigger] v[j]).0.x <= COORD_LIMIT && v[j].0.y <= COORD_LIMIT
}

/// Collects one entry per free record of the pool.
#[verifier::rlimit(100)]
#[verifier::spinoff_prover]
fn collect_free(rs: &Vec<Resource>) -> (cand: Vec<(Coord, u64)>)
    requires
        ids_unique(rs@),
        coords_ok(rs@),
    ensures
        entries_free(rs@, cand@),
        covers_free(rs@, cand@),
        ids_distinct(cand@),
        entries_bounded(cand@),
        cand@.len() == count_reservable(rs@),
{
    let ghost s = rs@;
    let mut cand: Vec<(Coord, u64)> = Vec::new();
    let ghost mut wit: Seq<int> = Seq::empty();
    let mut i: usize = 0;
    let len0 = rs.len();
    while i < len0
        invariant
            i <= len0,
            len0 == s.len(),
            rs@ == s,
            ids_unique(s),
            coords_ok(s),
            wit.len() == cand@.len(),
            forall|j: int|
                0 <= j < wit.len() ==> 0 <= #[trigger] wit[j] < i && s[wit[j]].id == cand@[j].1
                    && s[wit[j]].pos == cand@[j].0 && s[wit[j]].state
                    == ResourceState::Reservable,
            forall|j1: int, j2: int| 0 <= j1 < j2 < wit.len() ==> wit[j1] < wit[j2],
            forall|i2: int|
                0 <= i2 < i && (#[trigger] s[i2]).state == ResourceState::Reservable
                    ==> listed_with(cand@, s[i2].id, s[i2].pos),
            cand@.len() == count_reservable(s.subrange(0, i as int)),
        decreases len0 - i,
    {
        let res = rs[i];
        let ghost cand0 = cand@;
        let is_free = match res.state {
            ResourceState::Reservable => true,
            ResourceState::Reserved { .. } => false,
        };
        if is_free {
            cand.push((res.pos, res.id));
            proof {
                wit = wit.push(i as int);
            }
        }
        proof {
            assert(s.subrange(0, i + 1).drop_last() =~= s.subrange(0, i as int));
            assert(s.subrange(0, i + 1).last() == s[i as int]);
            if is_free {
                assert(cand@ == cand0.push((res.pos, res.id)));
                assert(wit[wit.len() - 1] == i as int);
                assert(cand@[cand@.len() - 1] == (res.pos, res.id));
            }
            assert forall|i2: int|
                0 <= i2 < i + 1 && (#[trigger] s[i2]).state == ResourceState::Reservable implies
                listed_with(cand@, s[i2].id, s[i2].pos) by {
                if i2 == i as int && is_free {
                    assert(cand@[cand@.len() - 1].1 == s[i2].id && cand@[cand@.len() - 1].0 == s[
                        i2].pos);
                } else {
                    assert(listed_with(cand0, s[i2].id, s[i2].pos));
                    let j0 = choose|j0: int|
                        0 <= j0 < cand0.len() && (#[trigger] cand0[j0]).1 == s[i2].id && cand0[
                        j0].0 == s[i2].pos;
                    assert(cand@[j0].1 == s[i2].id && cand@[j0].0 == s[i2].pos);
                }
            }
        }
        i = i + 1;
    }
    proof {
        assert(s.subrange(0, len0 as int) =~= s);
        assert forall|j: int| 0 <= j < cand@.len() implies entry_matches(s, #[trigger] cand@[j])
            by {
            assert(0 <= wit[j] < s.len() && s[wit[j]].id == cand@[j].1 && s[wit[j]].pos == cand@[
                j].0 && s[wit[j]].state == ResourceState::Reservable);
        }
        assert forall|j1: int, j2: int|
            0 <= j1 < j2 < cand@.len() implies cand@[j1].1 != cand@[j2].1 by {
            assert(wit[j1] < wit[j2]);
            assert(s[wit[j1]].id != s[wit[j2]].id);
        }
        assert forall|j: int| 0 <= j < cand@.len() implies (#[trigger] cand@[j]).0.x
            <= COORD_LIMIT && cand@[j].0.y <= COORD_LIMIT by {
            assert(s[wit[j]].pos == cand@[j].0);
            assert(s[wit[j]].pos.x <= COORD_LIMIT && s[wit[j]].pos.y <= COORD_LIMIT);
        }
    }
    cand
}

/// Sorts entries by squared distance to the origin, nearest first, keeping
/// the list relations to the pool.
#[verifier::rlimit(100)]
#[verifier::spinoff_prover]
fn sort_by_dist(origin: Coord, cand_in: Vec<(Coord, u64)>, s: Ghost<Seq<Resource>>) -> (v: Vec<
    (Coord, u64),
>)
    requires
        origin.x <= COORD_LIMIT,
        origin.y <= COORD_LIMIT,
        entries_free(s@, cand_in@),
        covers_free(s@, cand_in@),
        ids_distinct(cand_in@),
        entries_bounded(cand_in@),
    ensures
        entries_free(s@, v@),
        covers_free(s@, v@),
        ids_distinct(v@),
        v@.len() == cand_in@.len(),
        sorted_by_dist(origin, v@),
{
    let mut cand = cand_in;
    let len = cand.len();
    let mut t: usize = 0;
    while t < len
        invariant
            t <= len,
            len == cand@.len(),
            origin.x <= COORD_LIMIT,
            origin.y <= COORD_LIMIT,
            entries_free(s@, cand@),
            covers_free(s@, cand@),
            ids_distinct(cand@),
            entries_bounded(cand@),
            forall|a: int, b: int|
                0 <= a < t && a < b < len ==> sdist2(origin, (#[trigger] cand@[a]).0) <= sdist2(
                    origin,
                    (#[trigger] cand@[b]).0,
                ),
        decreases len - t,
    {
        let ct = cand[t];
        let mut best = dist2(origin, ct.0);
        let mut mn: usize = t;
        let mut j: usize = t + 1;
        while j < len
            invariant
                t < len,
                t <= mn < j,
                t + 1 <= j <= len,
                len == cand@.len(),
                origin.x <= COORD_LIMIT,
                origin.y <= COORD_LIMIT,
                entries_bounded(cand@),
                best as int == sdist2(origin, cand@[mn as int].0),
                forall|j2: int|
                    t <= j2 < j ==> best as int <= sdist2(origin, (#[trigger] cand@[j2]).0),
            decreases len - j,
        {
            let cj = cand[j];
            let dj = dist2(origin, cj.0);
            if dj < best {
                best = dj;
                mn = j;
            }
            j = j + 1;
        }
        let ghost cand_pre = cand@;
        let vt = cand[t];
        let vm = cand[mn];
        cand.set(t, vm);
        cand.set(mn, vt);
        proof {
            lemma_swap_props(s@, cand_pre, cand@, t as int, mn as int);
            assert forall|j2: int| 0 <= j2 < cand@.len() implies (#[trigger] cand@[j2]).0.x
                <= COORD_LIMIT && cand@[j2].0.y <= COORD_LIMIT by {
                if j2 == t as int {
                    assert(cand@[j2] == cand_pre[mn as int]);
                } else if j2 == mn as int {
                    assert(cand@[j2] == cand_pre[t as int]);
                } else {
                    assert(cand@[j2] == cand_pre[j2]);
                }
            }
            assert forall|a: int, b: int|
                0 <= a < t + 1 && a < b < len implies sdist2(origin, (#[trigger] cand@[a]).0)
                <= sdist2(origin, (#[trigger] cand@[b]).0) by {
                if a < t {
                    assert(cand@[a] == cand_pre[a]);
                    if b == t as int {
                        assert(cand@[b] == cand_pre[mn as int]);
                    } else if b == mn as int {
                        assert(cand@[b] == cand_pre[t as int]);
                    } else {
                        assert(cand@[b] == cand_pre[b]);
                    }
                } else {
                    assert(a == t);
                    assert(cand@[t as int] == cand_pre[mn as int]);
                    if b == mn as int {
                        assert(cand@[b] == cand_pre[t as int]);
                    } else {
                        assert(cand@[b] == cand_pre[b]);
                    }
                }
            }
        }
        t = t + 1;
    }
    cand
}

/// Truncating a sorted, complete, duplicate-free listing of the free records
/// to its first `k` entries yields exactly what the nearest-first query
/// promises.
#[verifier::rlimit(100)]
#[verifier::spinoff_prover]
proof fn lemma_take_post(
    s: Seq<Resource>,
    origin: Coord,
    k: int,
    cand: Seq<(Coord, u64)>,
    out: Seq<(Coord, u64)>,
)
    requires
        entries_free(s, cand),
        covers_free(s, cand),
        ids_distinct(cand),
        cand.len() == count_reservable(s),
        sorted_by_dist(origin, cand),
        0 <= k,
        out.len() == if k < cand.len() {
            k
        } else {
            cand.len() as int
        },
        forall|j: int| 0 <= j < out.len() ==> #[trigger] out[j] == cand[j],
    ensures
        nearest_k_post(s, origin, k, out),
{
    assert forall|j: int| 0 <= j < out.len() implies entry_matches(s, #[trigger] out[j]) by {
        assert(out[j] == cand[j]);
        assert(entry_matches(s, cand[j]));
    }
    assert forall|j1: int, j2: int| 0 <= j1 < j2 < out.len() implies out[j1].1 != out[j2].1 by {
        assert(out[j1] == cand[j1]);
        assert(out[j2] == cand[j2]);
    }
    assert forall|j1: int, j2: int|
        0 <= j1 <= j2 < out.len() implies sdist2(origin, (#[trigger] out[j1]).0) <= sdist2(
        origin,
        (#[trigger] out[j2]).0,
    ) by {
        assert(out[j1] == cand[j1]);
        assert(out[j2] == cand[j2]);
        assert(sdist2(origin, cand[j1].0) <= sdist2(origin, cand[j2].0));
    }
    assert forall|i: int|
        0 <= i < s.len() && (#[trigger] s[i]).state == ResourceState::Reservable && not_listed(
            out,
            s[i].id,
        ) implies all_nearer_than(origin, out, s[i].pos) by {
        assert(listed_with(cand, s[i].id, s[i].pos));
        let jf = choose|jf: int|
            0 <= jf < cand.len() && (#[trigger] cand[jf]).1 == s[i].id && cand[jf].0 == s[i].pos;
        assert(jf >= out.len()) by {
            if jf < out.len() {
                assert(out[jf] == cand[jf]);
                assert(out[jf].1 != s[i].id);
                assert(false);
            }
        }
        assert forall|j2: int|
            0 <= j2 < out.len() implies sdist2(origin, (#[trigger] out[j2]).0) <= sdist2(
            origin,
            s[i].pos,
        ) by {
            assert(out[j2] == cand[j2]);
            assert(sdist2(origin, cand[j2].0) <= sdist2(origin, cand[jf].0));
        }
    }
}

impl ReservationManager {
    /// Lists the `k` reservable resources nearest to `origin`, nearest first.
    /// Owned resources are invisible to this query by construction, so two
    /// requesters cannot both be steered to a resource one of them already
    /// claimed.
    pub fn nearest_k(&self, origin: Coord, k: usize) -> (r: Vec<(Coord, u64)>)
        requires
            self.wf(),
            origin.x <= COORD_LIMIT,
            origin.y <= COORD_LIMIT,
        ensures
            nearest_k_post(self@, origin, k as int, r@),
    {
        let ghost s = self@;
        let cand0 = collect_free(&self.resources);
        let cand = sort_by_dist(origin, cand0, Ghost(s));
        let len = cand.len();
        let take = if k < len {
            k
        } else {
            len
        };
        let mut out: Vec<(Coord, u64)> = Vec::new();
        let mut j: usize = 0;
        while j < take
            invariant
                j <= take,
                take <= len,
                len == cand@.len(),
                out@.len() == j,
                forall|j2: int| 0 <= j2 < j ==> #[trigger] out@[j2] == cand@[j2],
            decreases take - j,
        {
            out.push(cand[j]);
            j = j + 1;
        }
        proof {
            lemma_take_post(s, origin, k as int, cand@, out@);
        }
        out
    }
}

/// The pool after draining a queue of requests, strictly in arrival order.
pub open spec fn spec_process(s: Seq<Resource>, reqs: Seq<ReservationRequest>) -> Seq<Resource>
    decreases reqs.len(),
{
    if reqs.len() == 0 {
        s
    } else {
        spec_grant(
            spec_process(s, reqs.drop_last()),
            reqs.last().requester,
            reqs.last().target,
        )
    }
}

/// The per-request outcomes of draining a queue, in arrival order.
pub open spec fn spec_outcomes(s: Seq<Resource>, reqs: Seq<ReservationRequest>) -> Seq<
    RequestOutcome,
>
    decreases reqs.len(),
{
    if reqs.len() == 0 {
        Seq::empty()
    } else {
        spec_outcomes(s, reqs.drop_last()).push(
            if spec_granted(spec_process(s, reqs.drop_last()), reqs.last().target) {
                RequestOutcome::Granted
            } else {
                RequestOutcome::Rejected
            },
        )
    }
}

impl ReservationManager {
    /// Drains a batch of requests strictly in arrival order, resolving each
    /// against the pool as left by its predecessors; every outcome is
    /// reported, and a rejection never disturbs the rest of the batch.
    pub fn process_requests(&mut self, requests: &Vec<ReservationRequest>) -> (outcomes: Vec<
        RequestOutcome,
    >)
        requires
            old(self).wf(),
        ensures
            final(self).wf(),
            final(self)@ == spec_process(old(self)@, requests@),
            outcomes@ == spec_outcomes(old(self)@, requests@),
    {
        let mut outs: Vec<RequestOutcome> = Vec::new();
        let mut i: usize = 0;
        let len = requests.len();
        while i < len
            invariant
                i <= len,
                len == requests@.len(),
                self.wf(),
                self@ == spec_process(old(self)@, requests@.subrange(0, i as int)),
                outs@ == spec_outcomes(old(self)@, requests@.subrange(0, i as int)),
            decreases len - i,
        {
            let rq = requests[i];
            let o = self.request_reservation(rq.requester, rq.target);
            outs.push(o);
            proof {
                assert(requests@.subrange(0, i + 1).drop_last() =~= requests@.subrange(
                    0,
                    i as int,
                ));
                assert(requests@.subrange(0, i + 1).last() == requests@[i as int]);
            }
            i = i + 1;
        }
        proof {
            assert(requests@.subrange(0, len as int) =~= requests@);
        }
        outs
    }
}

/// A grant keeps ids unique: only a state field changes.
proof fn lemma_grant_unique(s: Seq<Resource>, requester: u64, target: u64)
    requires
        ids_unique(s),
    ensures
        ids_unique(spec_grant(s, requester, target)),
        spec_grant(s, requester, target).len() == s.len(),
        forall|i: int|
            0 <= i < s.len() ==> (#[trigger] spec_grant(s, requester, target)[i]).id == s[i].id,
{
    if spec_granted(s, target) {
        let i0 = choose|i0: int|
            0 <= i0 < s.len() && (#[trigger] s[i0]).id == target && s[i0].state
                == ResourceState::Reservable;
        let iu = idx_of(s, target);
        assert(0 <= iu < s.len() && s[iu].id == target);
        let s1 = spec_grant(s, requester, target);
        assert forall|i: int| 0 <= i < s.len() implies (#[trigger] s1[i]).id == s[i].id by {}
        assert forall|i: int, j: int| 0 <= i < j < s1.len() implies s1[i].id != s1[j].id by {
            assert(s1[i].id == s[i].id);
            assert(s1[j].id == s[j].id);
        }
    }
}

/// An existing ownership survives any later request: a claim on the same
/// target is rejected outright, and a claim on another target touches only
/// that other record.
proof fn lemma_reserved_stays(s: Seq<Resource>, requester: u64, t2: u64, target: u64, owner: u64)
    requires
        ids_unique(s),
        is_reserved_by(s, target, owner),
    ensures
        is_reserved_by(spec_grant(s, requester, t2), target, owner),
        t2 == target ==> !spec_granted(s, t2),
{
    let iw = choose|iw: int|
        0 <= iw < s.len() && (#[trigger] s[iw]).id == target && s[iw].state == (
        ResourceState::Reserved { owner });
    if spec_granted(s, t2) {
        let i0 = choose|i0: int|
            0 <= i0 < s.len() && (#[trigger] s[i0]).id == t2 && s[i0].state
                == ResourceState::Reservable;
        if t2 == target {
            if i0 != iw {
                assert(s[i0].id != s[iw].id);
            }
            assert(false);
        }
        let iu = idx_of(s, t2);
        assert(0 <= iu < s.len() && s[iu].id == t2);
        let s1 = spec_grant(s, requester, t2);
        assert(iu != iw) by {
            if iu == iw {
                assert(s[iw].id == t2);
            }
        }
        assert(s1[iw] == s[iw]);
        assert(is_reserved_by(s1, target, owner)) by {
            assert(s1[iw].id == target && s1[iw].state == (ResourceState::Reserved { owner }));
        }
    }
}

/// Exclusivity of a single grant: once a request wins a target, the target is
/// owned by that requester, no further request can win it, and a retry by
/// anyone else changes nothing — so no two requesters ever own one resource
/// at the same time.
pub proof fn lemma_reservation_exclusive(s: Seq<Resource>, first: u64, second: u64, target: u64)
    requires
        ids_unique(s),
        spec_granted(s, target),
    ensures
        is_reserved_by(spec_grant(s, first, target), target, first),
        !spec_granted(spec_grant(s, first, target), target),
        spec_grant(spec_grant(s, first, target), second, target) == spec_grant(s, first, target),
        is_reserved_by(spec_grant(spec_grant(s, first, target), second, target), target, first),
{
    let i0 = choose|i0: int|
        0 <= i0 < s.len() && (#[trigger] s[i0]).id == target && s[i0].state
            == ResourceState::Reservable;
    let iu = idx_of(s, target);
    assert(0 <= iu < s.len() && s[iu].id == target);
    let s1 = spec_grant(s, first, target);
    assert(s1[iu].id == target && s1[iu].state == (ResourceState::Reserved { owner: first }));
    assert(is_reserved_by(s1, target, first));
    lemma_grant_unique(s, first, target);
    assert(!spec_granted(s1, target)) by {
        if spec_granted(s1, target) {
            let i1 = choose|i1: int|
                0 <= i1 < s1.len() && (#[trigger] s1[i1]).id == target && s1[i1].state
                    == ResourceState::Reservable;
            if i1 != iu {
                assert(s1[i1].id != s1[iu].id);
            }
            assert(false);
        }
    }
}

/// The outcome at position `m` of a drained batch is decided against the pool
/// as left by the requests before it.
proof fn lemma_outcome_at(s0: Seq<Resource>, reqs: Seq<ReservationRequest>, m: int)
    requires
        0 <= m < reqs.len(),
    ensures
        spec_outcomes(s0, reqs).len() == reqs.len(),
        spec_outcomes(s0, reqs)[m] == if spec_granted(
            spec_process(s0, reqs.subrange(0, m)),
            reqs[m].target,
        ) {
            RequestOutcome::Granted
        } else {
            RequestOutcome::Rejected
        },
    decreases reqs.len(),
{
    lemma_outcomes_len(s0, reqs);
    if m == reqs.len() - 1 {
        assert(reqs.drop_last() =~= reqs.subrange(0, m));
    } else {
        lemma_outcome_at(s0, reqs.drop_last(), m);
        assert(reqs.drop_last().subrange(0, m) =~= reqs.subrange(0, m));
        assert(reqs.drop_last()[m] == reqs[m]);
    }
}

/// A drained batch yields one outcome per request.
proof fn lemma_outcomes_len(s0: Seq<Resource>, reqs: Seq<ReservationRequest>)
    ensures
        spec_outcomes(s0, reqs).len() == reqs.len(),
    decreases reqs.len(),
{
    if reqs.len() > 0 {
        lemma_outcomes_len(s0, reqs.drop_last());
    }
}

/// Draining keeps ids unique.
proof fn lemma_process_unique(s0: Seq<Resource>, reqs: Seq<ReservationRequest>)
    requires
        ids_unique(s0),
    ensures
        ids_unique(spec_process(s0, reqs)),
    decreases reqs.len(),
{
    if reqs.len() > 0 {
        lemma_process_unique(s0, reqs.drop_last());
        lemma_grant_unique(
            spec_process(s0, reqs.drop_last()),
            reqs.last().requester,
            reqs.last().target,
        );
    }
}

/// After a win at position `i`, the winner still owns the target once any
/// longer prefix of the same batch has been drained.
proof fn lemma_owner_persists(
    s0: Seq<Resource>,
    reqs: Seq<ReservationRequest>,
    i: int,
    m: int,
)
    requires
        ids_unique(s0),
        0 <= i < m <= reqs.len(),
        spec_outcomes(s0, reqs)[i] == RequestOutcome::Granted,
    ensures
        is_reserved_by(spec_process(s0, reqs.subrange(0, m)), reqs[i].target, reqs[i].requester),
    decreases m,
{
    lemma_outcome_at(s0, reqs, i);
    if m == i + 1 {
        let sp = spec_process(s0, reqs.subrange(0, i));
        lemma_process_unique(s0, reqs.subrange(0, i));
        lemma_reservation_exclusive(sp, reqs[i].requester, reqs[i].requester, reqs[i].target);
        assert(reqs.subrange(0, m).drop_last() =~= reqs.subrange(0, i));
        assert(reqs.subrange(0, m).last() == reqs[i]);
    } else {
        lemma_owner_persists(s0, reqs, i, m - 1);
        lemma_process_unique(s0, reqs.subrange(0, m - 1));
        assert(reqs.subrange(0, m).drop_last() =~= reqs.subrange(0, m - 1));
        assert(reqs.subrange(0, m).last() == reqs[m - 1]);
        lemma_reserved_stays(
            spec_process(s0, reqs.subrange(0, m - 1)),
            reqs[m - 1].requester,
            reqs[m - 1].target,
            reqs[i].target,
            reqs[i].requester,
        );
    }
}

/// Exclusivity across a whole drained batch: when two requests in one batch
/// name the same target and the earlier one wins, the later one is rejected,
/// and the target is still owned by the earlier requester afterwards — no
/// resource is ever owned by two requesters at once.
pub proof fn lemma_drain_exclusive(
    s0: Seq<Resource>,
    reqs: Seq<ReservationRequest>,
    i: int,
    j: int,
)
    requires
        ids_unique(s0),
        0 <= i < j < reqs.len(),
        reqs[i].target == reqs[j].target,
        spec_outcomes(s0, reqs)[i] == RequestOutcome::Granted,
    ensures
        spec_outcomes(s0, reqs)[j] == RequestOutcome::Rejected,
        is_reserved_by(
            spec_process(s0, reqs.subrange(0, j + 1)),
            reqs[i].target,
            reqs[i].requester,
        ),
{
    lemma_owner_persists(s0, reqs, i, j);
    lemma_outcome_at(s0, reqs, j);
    let sp = spec_process(s0, reqs.subrange(0, j));
    lemma_process_unique(s0, reqs.subrange(0, j));
    lemma_reserved_stays(sp, reqs[j].requester, reqs[j].target, reqs[i].target, reqs[i].requester);
    lemma_owner_persists(s0, reqs, i, j + 1);
}

/// Liveness, exclusion side: a resource that is currently owned never shows
/// up in a nearest-first query result.
pub proof fn lemma_reserved_invisible(
    s: Seq<Resource>,
    origin: Coord,
    k: int,
    r: Seq<(Coord, u64)>,
    id: u64,
)
    requires
        nearest_k_post(s, origin, k, r),
        ids_unique(s),
        is_reserved(s, id),
    ensures
        not_listed(r, id),
{
    let iw = choose|iw: int|
        0 <= iw < s.len() && (#[trigger] s[iw]).id == id && s[iw].state matches
            ResourceState::Reserved { .. };
    assert forall|j: int| 0 <= j < r.len() implies (#[trigger] r[j]).1 != id by {
        if r[j].1 == id {
            assert(entry_matches(s, r[j]));
            let i0 = choose|i0: int|
                0 <= i0 < s.len() && (#[trigger] s[i0]).id == r[j].1 && s[i0].pos == r[j].0 && s[
                i0].state == ResourceState::Reservable;
            if i0 != iw {
                assert(s[i0].id != s[iw].id);
            }
            assert(false);
        }
    }
}

/// Liveness, admission side: a reservable resource strictly nearest to the
/// origin heads any nonempty nearest-first query result.
pub proof fn lemma_closest_listed(
    s: Seq<Resource>,
    origin: Coord,
    k: int,
    r: Seq<(Coord, u64)>,
    i: int,
)
    requires
        nearest_k_post(s, origin, k, r),
        ids_unique(s),
        k >= 1,
        0 <= i < s.len(),
        s[i].state == ResourceState::Reservable,
        forall|i2: int|
            0 <= i2 < s.len() && i2 != i && (#[trigger] s[i2]).state == ResourceState::Reservable
                ==> sdist2(origin, s[i].pos) < sdist2(origin, s[i2].pos),
    ensures
        r.len() >= 1,
        r[0].1 == s[i].id,
{
    lemma_count_reservable_pos(s, i);
    assert(r.len() >= 1);
    assert(entry_matches(s, r[0]));
    let i0 = choose|i0: int|
        0 <= i0 < s.len() && (#[trigger] s[i0]).id == r[0].1 && s[i0].pos == r[0].0 && s[i0].state
            == ResourceState::Reservable;
    if s[i0].id == s[i].id {
        if i0 != i {
            if i0 < i {
                assert(s[i0].id != s[i].id);
            } else {
                assert(s[i].id != s[i0].id);
            }
            assert(false);
        }
        assert(r[0].1 == s[i].id);
    } else {
        assert(i0 != i);
        assert(sdist2(origin, s[i].pos) < sdist2(origin, s[i0].pos));
        if not_listed(r, s[i].id) {
            assert(all_nearer_than(origin, r, s[i].pos));
            assert(sdist2(origin, r[0].0) <= sdist2(origin, s[i].pos));
            assert(false);
        } else {
            let jl = choose|jl: int| 0 <= jl < r.len() && (#[trigger] r[jl]).1 == s[i].id;
            assert(entry_matches(s, r[jl]));
            let il = choose|il: int|
                0 <= il < s.len() && (#[trigger] s[il]).id == r[jl].1 && s[il].pos == r[jl].0
                    && s[il].state == ResourceState::Reservable;
            if il != i {
                if il < i {
                    assert(s[il].id != s[i].id);
                } else {
                    assert(s[i].id != s[il].id);
                }
                assert(false);
            }
            assert(r[jl].0 == s[i].pos);
            assert(jl != 0);
            assert(sdist2(origin, r[0].0) <= sdist2(origin, r[jl].0));
            assert(false);
        }
    }
}

} // verus!

