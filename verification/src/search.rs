//! Breadth-first traversal over the room graph: the first path to a room
//! matching a query, and the set of rooms reachable under a door-crossing
//! policy.

use vstd::prelude::*;
use crate::base::Offset;
use crate::room::{Room, Type};
use crate::door::{Door, Lock};
use crate::entity::{Item, Key, EnemyKind};
use crate::path::Path;
use crate::dungeon::Dungeon;
use crate::model::{
    GhostPolicy, can_cross, step_ok, path_ok, reachable, has_room_at, holds_boss_key,
    lemma_path_extend, lemma_reachable_self, lemma_reachable_step,
};

verus! {

/// The room predicates that drive path searches.
#[derive(Debug, Eq, PartialEq, Copy, Clone, Structural)]
pub enum RoomQuery {
    /// The room's chest holds the boss key.
    BossKeyChest,
    /// The room's enemy is the boss.
    BossEnemy,
    /// The room is an intersection or crossing.
    Junction,
    /// The room sits at the given offset.
    AtOffset(Offset),
}

/// What a query says of a room.
pub open spec fn query_holds(q: RoomQuery, r: Room) -> bool {
    match q {
        RoomQuery::BossKeyChest => holds_boss_key(r),
        RoomQuery::BossEnemy => r.enemy matches Some(e) && e.typ == EnemyKind::Boss,
        RoomQuery::Junction => r.typ == Type::Intersection || r.typ == Type::Crossing,
        RoomQuery::AtOffset(o) => r.offset == o,
    }
}

/// Evaluates a query on a room.
pub fn query_matches(q: &RoomQuery, r: &Room) -> (b: bool)
    ensures
        b == query_holds(*q, *r),
{
    match q {
        RoomQuery::BossKeyChest => match &r.chest {
            Some(c) => c.item == Item::Key(Key::Boss),
            None => false,
        },
        RoomQuery::BossEnemy => match &r.enemy {
            Some(e) => e.typ == EnemyKind::Boss,
            None => false,
        },
        RoomQuery::Junction => r.typ == Type::Intersection || r.typ == Type::Crossing,
        RoomQuery::AtOffset(o) => r.offset == *o,
    }
}

/// Every offset before the last of a search path names a room that fails
/// the query: the path's endpoint is the first match in search order.
pub open spec fn prefix_fails(rooms: Seq<Room>, q: RoomQuery, p: Seq<Offset>) -> bool {
    forall|idx: int, i2: int|
        0 <= idx < p.len() - 1 && 0 <= i2 < rooms.len() && (#[trigger] rooms[i2]).offset == (
        #[trigger] p[idx]) ==> !query_holds(q, rooms[i2])
}

/// A walk out of `start` whose last offset names a room satisfying the
/// query.
pub open spec fn matching_walk(rooms: Seq<Room>, q: RoomQuery, start: Offset, w: Seq<Offset>) -> bool {
    &&& path_ok(rooms, GhostPolicy::AllDoors, w)
    &&& w.first() == start
    &&& exists|i: int|
        0 <= i < rooms.len() && (#[trigger] rooms[i]).offset == w.last() && query_holds(
            q,
            rooms[i],
        )
}

/// A door-crossing policy, as executable data. Its view is the ghost policy
/// of the model.
#[derive(Debug)]
pub enum Policy {
    AllDoors,
    AvoidBossKey,
    WithKeys(Vec<(Offset, Offset)>),
}

impl View for Policy {
    type V = GhostPolicy;

    open spec fn view(&self) -> GhostPolicy {
        match self {
            Policy::AllDoors => GhostPolicy::AllDoors,
            Policy::AvoidBossKey => GhostPolicy::AvoidBossKey,
            Policy::WithKeys(v) => GhostPolicy::WithKeys(v@),
        }
    }
}

/// Whether `v` holds the offset `o`.
pub fn contains_offset(v: &Vec<Offset>, o: &Offset) -> (r: bool)
    ensures
        r == v@.contains(*o),
{
    let mut i: usize = 0;
    while i < v.len()
        invariant
            i <= v@.len(),
            forall|j: int| 0 <= j < i ==> v@[j] != *o,
        decreases v@.len() - i,
    {
        if v[i] == *o {
            return true;
        }
        i += 1;
    }
    false
}

/// Whether `v` holds the directed pair `p`.
pub fn contains_pair(v: &Vec<(Offset, Offset)>, p: &(Offset, Offset)) -> (r: bool)
    ensures
        r == v@.contains(*p),
{
    let mut i: usize = 0;
    while i < v.len()
        invariant
            i <= v@.len(),
            forall|j: int| 0 <= j < i ==> v@[j] != *p,
        decreases v@.len() - i,
    {
        if v[i].0 == p.0 && v[i].1 == p.1 {
            return true;
        }
        i += 1;
    }
    false
}

/// Whether the policy lets a walker standing at `from` cross door `d`.
pub fn can_cross_door(policy: &Policy, from: Offset, d: &Door) -> (r: bool)
    ensures
        r == can_cross(policy@, from, *d),
{
    match policy {
        Policy::AllDoors => true,
        Policy::AvoidBossKey => d.lock != Lock::BossKey,
        Policy::WithKeys(opened) => match d.lock {
            Lock::BossKey => false,
            Lock::SmallKey => contains_pair(opened, &(from, d.to)),
            _ => true,
        },
    }
}

impl Dungeon {
    /// Breadth-first search from `start`, crossing every door: returns the
    /// offsets of the first room satisfying the query, as the path walked to
    /// it from `start`. Returns `None` exactly when no reachable room
    /// satisfies the query.
    ///
    /// Traversal is deterministic: the frontier is a queue, and doors of one
    /// room are expanded in their storage order.
    pub fn find_room_path(&self, start: Offset, query: &RoomQuery) -> (r: Option<Path>)
        requires
            self.wf(),
            has_room_at(self.rooms@, start),
        ensures
            match r {
                Some(p) => {
                    &&& path_ok(self.rooms@, GhostPolicy::AllDoors, p.0@)
                    &&& p.0@.first() == start
                    &&& p.0@.no_duplicates()
                    &&& prefix_fails(self.rooms@, *query, p.0@)
                    &&& exists|i: int|
                        0 <= i < self.rooms@.len() && (#[trigger] self.rooms@[i]).offset
                            == p.0@.last() && query_holds(*query, self.rooms@[i])
                    &&& forall|w: Seq<Offset>|
                        #[trigger] matching_walk(self.rooms@, *query, start, w) ==> w.len()
                            >= p.0@.len()
                },
                None => forall|i: int|
                    0 <= i < self.rooms@.len() && reachable(
                        self.rooms@,
                        GhostPolicy::AllDoors,
                        start,
                        (#[trigger] self.rooms@[i]).offset,
                    ) ==> !query_holds(*query, self.rooms@[i]),
            },
    {
        let mut visited: Vec<Offset> = Vec::new();
        visited.push(start);
        let mut first = Path::new();
        first.0.push(start);
        let mut to_visit: Vec<(Offset, Path)> = Vec::new();
        to_visit.push((start, first));

        // The offsets already expanded, and the offsets still queued, in
        // order: together they are exactly the visited offsets.
        let ghost mut done: Seq<Offset> = Seq::empty();
        let ghost mut qoffs: Seq<Offset> = seq![start];

        proof {
            assert(seq![start][0] == start);
            assert(visited@ =~= done + qoffs);
        }

        while to_visit.len() > 0
            invariant
                self.wf(),
                has_room_at(self.rooms@, start),
                visited@.no_duplicates(),
                visited@.len() >= 1,
                visited@[0] == start,
                forall|j: int|
                    0 <= j < visited@.len() ==> has_room_at(self.rooms@, #[trigger] visited@[j]),
                visited@.len() <= self.rooms@.len(),
                visited@ =~= done + qoffs,
                qoffs.len() == to_visit@.len(),
                forall|j: int| 0 <= j < qoffs.len() ==> qoffs[j] == (#[trigger] to_visit@[j]).0,
                forall|j: int|
                    0 <= j < done.len() ==> exists|i: int|
                        0 <= i < self.rooms@.len() && (#[trigger] self.rooms@[i]).offset == (
                        #[trigger] done[j]) && !query_holds(*query, self.rooms@[i]),
                forall|o: Offset, b: Offset|
                    done.contains(o) && #[trigger] step_ok(self.rooms@, GhostPolicy::AllDoors, o, b)
                        ==> visited@.contains(b),
                forall|j: int|
                    0 <= j < to_visit@.len() ==> {
                        &&& has_room_at(self.rooms@, (#[trigger] to_visit@[j]).0)
                        &&& path_ok(self.rooms@, GhostPolicy::AllDoors, to_visit@[j].1.0@)
                        &&& to_visit@[j].1.0@.first() == start
                        &&& to_visit@[j].1.0@.last() == to_visit@[j].0
                        &&& to_visit@[j].1.0@.no_duplicates()
                        &&& prefix_fails(self.rooms@, *query, to_visit@[j].1.0@)
                    },
                forall|j: int, idx: int|
                    0 <= j < to_visit@.len() && 0 <= idx < to_visit@[j].1.0@.len()
                        ==> visited@.contains(#[trigger] to_visit@[j].1.0@[idx]),
                done.len() > 0 ==> done[0] == start,
                forall|j1: int, j2: int|
                    0 <= j1 <= j2 < to_visit@.len() ==> (#[trigger] to_visit@[j1]).1.0@.len() <= (
                    #[trigger] to_visit@[j2]).1.0@.len(),
                forall|j: int|
                    0 <= j < to_visit@.len() ==> (#[trigger] to_visit@[j]).1.0@.len()
                        <= to_visit@[0].1.0@.len() + 1,
                to_visit@.len() > 0 ==> forall|w: Seq<Offset>|
                    (#[trigger] path_ok(self.rooms@, GhostPolicy::AllDoors, w)) && w.first() == start && w.len()
                        < to_visit@[0].1.0@.len() ==> done.contains(w.last()),
                forall|j: int, w: Seq<Offset>|
                    0 <= j < to_visit@.len() && (#[trigger] path_ok(self.rooms@, GhostPolicy::AllDoors, w))
                        && w.first() == start && w.last() == (#[trigger] to_visit@[j]).0
                        ==> w.len() >= to_visit@[j].1.0@.len(),
            decreases self.rooms@.len() - visited@.len(), to_visit@.len(),
        {
            let ghost front_len = to_visit@[0].1.0@.len() as int;
            let (offset, path) = to_visit.remove(0);
            let ghost lvl = path.0@.len() as int;
            proof {
                assert(qoffs[0] == offset);
                qoffs = qoffs.drop_first();
                assert(visited@ =~= done.push(offset) + qoffs);
                assert(lvl == front_len);
            }
            let i = match self.room_index(&offset) {
                Some(i) => i,
                None => {
                    proof {
                        assert(visited@.contains(offset)) by {
                            assert(visited@[done.len() as int] == offset);
                        }
                        assert(false);
                    }
                    return None;
                },
            };

            if query_matches(query, &self.rooms[i]) {
                proof {
                    // No shorter walk reaches a match: anything shorter
                    // ended at an already expanded room, and those all
                    // failed the query.
                    assert forall|w: Seq<Offset>|
                        #[trigger] matching_walk(self.rooms@, *query, start, w) implies w.len()
                        >= path.0@.len() by {
                        if w.len() < lvl {
                            assert(path_ok(self.rooms@, GhostPolicy::AllDoors, w));
                            assert(done.contains(w.last()));
                            let dj = choose|dj: int|
                                0 <= dj < done.len() && done[dj] == w.last();
                            assert(exists|i2: int|
                                0 <= i2 < self.rooms@.len() && (#[trigger] self.rooms@[i2]).offset
                                    == (#[trigger] done[dj]) && !query_holds(
                                    *query,
                                    self.rooms@[i2],
                                ));
                            let i2 = choose|i2: int|
                                0 <= i2 < self.rooms@.len() && self.rooms@[i2].offset == done[dj]
                                    && !query_holds(*query, self.rooms@[i2]);
                            let iw = choose|iw: int|
                                0 <= iw < self.rooms@.len() && (#[trigger] self.rooms@[iw]).offset
                                    == w.last() && query_holds(*query, self.rooms@[iw]);
                            if i2 != iw {
                                assert(self.rooms@[i2].offset == self.rooms@[iw].offset);
                                assert(false);
                            }
                        }
                    }
                }
                return Some(path);
            }

            let ghost v0 = visited@.len();
            let mut k: usize = 0;
            while k < self.rooms[i].doors.len()
                invariant
                    self.wf(),
                    has_room_at(self.rooms@, start),
                    i < self.rooms@.len(),
                    self.rooms@[i as int].offset == offset,
                    !query_holds(*query, self.rooms@[i as int]),
                    path_ok(self.rooms@, GhostPolicy::AllDoors, path.0@),
                    path.0@.first() == start,
                    path.0@.last() == offset,
                    path.0@.no_duplicates(),
                    prefix_fails(self.rooms@, *query, path.0@),
                    forall|idx: int|
                        0 <= idx < path.0@.len() ==> visited@.contains(#[trigger] path.0@[idx]),
                    visited@.no_duplicates(),
                    visited@.len() >= 1,
                    visited@[0] == start,
                    forall|j: int|
                        0 <= j < visited@.len() ==> has_room_at(
                            self.rooms@,
                            #[trigger] visited@[j],
                        ),
                    visited@.len() <= self.rooms@.len(),
                    visited@.len() >= v0,
                    visited@ =~= done.push(offset) + qoffs,
                    qoffs.len() == to_visit@.len(),
                    forall|j: int| 0 <= j < qoffs.len() ==> qoffs[j] == (#[trigger] to_visit@[j]).0,
                    forall|j: int|
                        0 <= j < done.len() ==> exists|i2: int|
                            0 <= i2 < self.rooms@.len() && (#[trigger] self.rooms@[i2]).offset == (
                            #[trigger] done[j]) && !query_holds(*query, self.rooms@[i2]),
                    forall|o: Offset, b: Offset|
                        done.contains(o) && #[trigger] step_ok(self.rooms@, GhostPolicy::AllDoors, o, b)
                            ==> visited@.contains(b),
                    lvl == path.0@.len(),
                    lvl >= 1,
                    done.len() > 0 ==> done[0] == start,
                    forall|j: int|
                        0 <= j < to_visit@.len() ==> lvl <= (#[trigger] to_visit@[j]).1.0@.len(),
                    forall|j: int|
                        0 <= j < to_visit@.len() ==> (#[trigger] to_visit@[j]).1.0@.len() <= lvl
                            + 1,
                    forall|j1: int, j2: int|
                        0 <= j1 <= j2 < to_visit@.len() ==> (#[trigger] to_visit@[j1]).1.0@.len()
                            <= (#[trigger] to_visit@[j2]).1.0@.len(),
                    forall|w: Seq<Offset>|
                        (#[trigger] path_ok(self.rooms@, GhostPolicy::AllDoors, w)) && w.first() == start && w.len()
                            < lvl ==> done.contains(w.last()),
                    forall|j: int, w: Seq<Offset>|
                        0 <= j < to_visit@.len() && (#[trigger] path_ok(self.rooms@, GhostPolicy::AllDoors, w))
                            && w.first() == start && w.last() == (#[trigger] to_visit@[j]).0
                            ==> w.len() >= to_visit@[j].1.0@.len(),
                    k <= self.rooms@[i as int].doors@.len(),
                    forall|k2: int|
                        0 <= k2 < k ==> visited@.contains(
                            (#[trigger] self.rooms@[i as int].doors@[k2]).to,
                        ),
                    forall|j: int|
                        0 <= j < to_visit@.len() ==> {
                            &&& has_room_at(self.rooms@, (#[trigger] to_visit@[j]).0)
                            &&& path_ok(self.rooms@, GhostPolicy::AllDoors, to_visit@[j].1.0@)
                            &&& to_visit@[j].1.0@.first() == start
                            &&& to_visit@[j].1.0@.last() == to_visit@[j].0
                            &&& to_visit@[j].1.0@.no_duplicates()
                            &&& prefix_fails(self.rooms@, *query, to_visit@[j].1.0@)
                        },
                    forall|j: int, idx: int|
                        0 <= j < to_visit@.len() && 0 <= idx < to_visit@[j].1.0@.len()
                            ==> visited@.contains(#[trigger] to_visit@[j].1.0@[idx]),
                decreases self.rooms@[i as int].doors@.len() - k,
            {
                let to = self.rooms[i].doors[k].to;
                if !contains_offset(&visited, &to) {
                    let mut to_path = path.clone();
                    to_path.0.push(to);
                    proof {
                        let rooms = self.rooms@;
                        assert(crate::model::room_wf(rooms, rooms[i as int]));
                        assert(crate::model::door_wf(
                            rooms,
                            offset,
                            rooms[i as int].doors@[k as int],
                        ));
                        assert(can_cross(
                            GhostPolicy::AllDoors,
                            offset,
                            rooms[i as int].doors@[k as int],
                        ));
                        assert(step_ok(rooms, GhostPolicy::AllDoors, offset, to));
                        lemma_path_extend(rooms, GhostPolicy::AllDoors, path.0@, to);
                        crate::model::lemma_no_duplicates_push(visited@, to);
                        // The new offset is fresh, so the extended path stays
                        // duplicate-free, and its prefix keeps failing the
                        // query: the old last element is the room just
                        // checked.
                        assert(!path.0@.contains(to)) by {
                            if path.0@.contains(to) {
                                let idx = choose|idx: int|
                                    0 <= idx < path.0@.len() && path.0@[idx] == to;
                                assert(visited@.contains(path.0@[idx]));
                            }
                        }
                        crate::model::lemma_no_duplicates_push(path.0@, to);
                        assert(prefix_fails(rooms, *query, to_path.0@)) by {
                            assert forall|idx: int, i2: int|
                                0 <= idx < to_path.0@.len() - 1 && 0 <= i2 < rooms.len() && (
                            #[trigger] rooms[i2]).offset == (
                            #[trigger] to_path.0@[idx]) implies !query_holds(
                                *query,
                                rooms[i2],
                            ) by {
                                if idx < path.0@.len() - 1 {
                                    assert(to_path.0@[idx] == path.0@[idx]);
                                } else {
                                    assert(to_path.0@[idx] == offset);
                                    assert(rooms[i2].offset == rooms[i as int].offset);
                                    if i2 != i {
                                        assert(false);
                                    }
                                }
                            }
                        }
                    }
                    let ghost vprev = visited@;
                    to_visit.push((to, to_path));
                    visited.push(to);
                    proof {
                        qoffs = qoffs.push(to);
                        crate::model::lemma_distinct_rooms_bound(self.rooms@, visited@);
                        assert(visited@ =~= done.push(offset) + qoffs);
                        assert forall|j: int, idx: int|
                            0 <= j < to_visit@.len() && 0 <= idx
                                < to_visit@[j].1.0@.len() implies visited@.contains(
                            #[trigger] to_visit@[j].1.0@[idx],
                        ) by {
                            if j < to_visit@.len() - 1 {
                                assert(vprev.contains(to_visit@[j].1.0@[idx]));
                                crate::model::lemma_contains_after_push(
                                    vprev,
                                    to_visit@[j].1.0@[idx],
                                    to,
                                );
                            } else {
                                if idx < to_visit@[j].1.0@.len() - 1 {
                                    assert(to_visit@[j].1.0@[idx] == path.0@[idx]);
                                    assert(vprev.contains(path.0@[idx]));
                                    crate::model::lemma_contains_after_push(
                                        vprev,
                                        path.0@[idx],
                                        to,
                                    );
                                } else {
                                    assert(to_visit@[j].1.0@[idx] == to);
                                    assert(visited@.last() == to);
                                }
                            }
                        }
                        assert forall|idx: int|
                            0 <= idx < path.0@.len() implies visited@.contains(
                            #[trigger] path.0@[idx],
                        ) by {
                            assert(vprev.contains(path.0@[idx]));
                            crate::model::lemma_contains_after_push(vprev, path.0@[idx], to);
                        }
                        // The new entry's recorded length is minimal: a
                        // shorter walk to its offset would end in a room
                        // already expanded or queued, hence visited.
                        assert forall|w: Seq<Offset>|
                            (#[trigger] path_ok(self.rooms@, GhostPolicy::AllDoors, w)) && w.first() == start
                                && w.last() == to implies w.len() >= lvl + 1 by {
                            if w.len() <= lvl {
                                if w.len() == 1 {
                                    assert(w.last() == w.first());
                                    assert(vprev[0] == start);
                                    assert(vprev.contains(to));
                                    assert(false);
                                } else {
                                    let wp = w.drop_last();
                                    assert(path_ok(self.rooms@, GhostPolicy::AllDoors, wp)) by {
                                        assert(wp[0] == w[0]);
                                        assert forall|ii: int|
                                            0 <= ii < wp.len() - 1 implies #[trigger] step_ok(
                                            self.rooms@,
                                            GhostPolicy::AllDoors,
                                            wp[ii],
                                            wp[ii + 1],
                                        ) by {
                                            assert(step_ok(self.rooms@, GhostPolicy::AllDoors, w[ii], w[ii + 1]));
                                            assert(wp[ii] == w[ii] && wp[ii + 1] == w[ii + 1]);
                                        }
                                    }
                                    assert(wp.len() < lvl);
                                    assert(done.contains(wp.last()));
                                    let li = w.len() - 2;
                                    assert(step_ok(self.rooms@, GhostPolicy::AllDoors, w[li], w[li + 1]));
                                    assert(w[li] == wp.last() && w[li + 1] == to);
                                    assert(vprev.contains(to));
                                    assert(false);
                                }
                            }
                        }
                        assert forall|j1: int, j2: int|
                            0 <= j1 <= j2 < to_visit@.len() implies (
                        #[trigger] to_visit@[j1]).1.0@.len() <= (
                        #[trigger] to_visit@[j2]).1.0@.len() by {
                            if j2 < to_visit@.len() - 1 {
                                assert(to_visit@[j1].1.0@.len() <= to_visit@[j2].1.0@.len());
                            } else {
                                assert(to_visit@[j2].1.0@.len() == lvl + 1);
                            }
                        }
                        assert forall|o: Offset, b: Offset|
                            done.contains(o) && #[trigger] step_ok(
                                self.rooms@,
                                GhostPolicy::AllDoors,
                                o,
                                b,
                            ) implies visited@.contains(b) by {
                            assert(vprev.contains(b));
                            crate::model::lemma_contains_after_push(vprev, b, to);
                        }
                        assert forall|k2: int| 0 <= k2 < k + 1 implies visited@.contains(
                            (#[trigger] self.rooms@[i as int].doors@[k2]).to,
                        ) by {
                            if k2 < k {
                                assert(vprev.contains(self.rooms@[i as int].doors@[k2].to));
                                crate::model::lemma_contains_after_push(
                                    vprev,
                                    self.rooms@[i as int].doors@[k2].to,
                                    to,
                                );
                            } else {
                                assert(visited@.last() == to);
                            }
                        }
                    }
                } else {
                    proof {
                        assert forall|k2: int| 0 <= k2 < k + 1 implies visited@.contains(
                            (#[trigger] self.rooms@[i as int].doors@[k2]).to,
                        ) by {}
                    }
                }
                k += 1;
            }
            proof {
                let rooms = self.rooms@;
                let old_done = done;
                done = done.push(offset);
                assert(visited@ =~= done + qoffs);
                assert(done[0] == visited@[0]);
                assert forall|o: Offset, b: Offset|
                    done.contains(o) && #[trigger] step_ok(rooms, GhostPolicy::AllDoors, o, b) implies
                    visited@.contains(b) by {
                    if old_done.contains(o) {
                        assert(visited@.contains(b));
                    } else {
                        let j = choose|j: int| 0 <= j < done.len() && done[j] == o;
                        assert(o == offset);
                        let (ri, k2): (int, int) = choose|ri: int, k2: int|
                            0 <= ri < rooms.len() && rooms[ri].offset == o && 0 <= k2
                                < rooms[ri].doors@.len() && rooms[ri].doors@[k2].to == b
                                && can_cross(GhostPolicy::AllDoors, o, rooms[ri].doors@[k2]);
                        if ri != i {
                            assert(rooms[ri].offset == rooms[i as int].offset);
                            assert(false);
                        }
                        assert(visited@.contains(rooms[i as int].doors@[k2].to));
                    }
                }
                assert forall|j: int| 0 <= j < done.len() implies exists|i2: int|
                    0 <= i2 < rooms.len() && (#[trigger] rooms[i2]).offset == (#[trigger] done[j])
                        && !query_holds(*query, rooms[i2]) by {
                    if j < old_done.len() {
                        assert(done[j] == old_done[j]);
                        assert(exists|i2: int|
                            0 <= i2 < rooms.len() && (#[trigger] rooms[i2]).offset == (
                            #[trigger] old_done[j]) && !query_holds(*query, rooms[i2]));
                    } else {
                        assert(done[j] == offset);
                        assert(rooms[i as int].offset == done[j] && !query_holds(
                            *query,
                            rooms[i as int],
                        ));
                    }
                }
                // Level completeness for the next front: any walk shorter
                // than it ends in an already expanded offset.
                if to_visit.len() > 0 {
                    let f = to_visit@[0].1.0@.len() as int;
                    assert(lvl <= f <= lvl + 1);
                    assert forall|w: Seq<Offset>|
                        (#[trigger] path_ok(rooms, GhostPolicy::AllDoors, w)) && w.first() == start && w.len()
                            < f implies done.contains(w.last()) by {
                        if w.len() < lvl {
                            assert(old_done.contains(w.last()));
                            crate::model::lemma_contains_after_push(old_done, w.last(), offset);
                        } else {
                            assert(w.len() == lvl);
                            if w.len() == 1 {
                                assert(w.last() == w.first());
                                assert(done[0] == start);
                                assert(done.contains(w.last()));
                            } else {
                                let wp = w.drop_last();
                                assert(path_ok(rooms, GhostPolicy::AllDoors, wp)) by {
                                    assert(wp[0] == w[0]);
                                    assert forall|ii: int|
                                        0 <= ii < wp.len() - 1 implies #[trigger] step_ok(
                                        rooms,
                                        GhostPolicy::AllDoors,
                                        wp[ii],
                                        wp[ii + 1],
                                    ) by {
                                        assert(step_ok(rooms, GhostPolicy::AllDoors, w[ii], w[ii + 1]));
                                        assert(wp[ii] == w[ii] && wp[ii + 1] == w[ii + 1]);
                                    }
                                }
                                assert(wp.len() < lvl);
                                assert(old_done.contains(wp.last()));
                                crate::model::lemma_contains_after_push(
                                    old_done,
                                    wp.last(),
                                    offset,
                                );
                                let li = w.len() - 2;
                                assert(step_ok(rooms, GhostPolicy::AllDoors, w[li], w[li + 1]));
                                assert(w[li] == wp.last() && w[li + 1] == w.last());
                                assert(visited@.contains(w.last()));
                                let pos = choose|pos: int|
                                    0 <= pos < visited@.len() && visited@[pos] == w.last();
                                if pos < done.len() {
                                    assert(done[pos] == w.last());
                                } else {
                                    let qj = pos - done.len();
                                    assert(qoffs[qj] == w.last());
                                    assert(to_visit@[qj].0 == w.last());
                                    assert(w.len() >= to_visit@[qj].1.0@.len());
                                    assert(to_visit@[qj].1.0@.len() >= f);
                                    assert(false);
                                }
                            }
                        }
                    }
                }
            }
        }
        proof {
            let rooms = self.rooms@;
            assert(qoffs.len() == 0);
            assert(visited@ =~= done + qoffs);
            assert(visited@ =~= done);
            assert(done[0] == start);
            assert(done.contains(start));
            assert forall|ii: int|
                0 <= ii < rooms.len() && reachable(
                    rooms,
                    GhostPolicy::AllDoors,
                    start,
                    (#[trigger] rooms[ii]).offset,
                ) implies !query_holds(*query, rooms[ii]) by {
                assert forall|o: Offset, b: Offset|
                    done.contains(o) && step_ok(rooms, GhostPolicy::AllDoors, o, b) implies done.contains(b) by {
                    assert(visited@.contains(b));
                }
                crate::model::lemma_closed_set_complete(rooms, GhostPolicy::AllDoors, start, done, rooms[ii].offset);
                let j = choose|j: int| 0 <= j < done.len() && done[j] == rooms[ii].offset;
                assert(exists|i2: int|
                    0 <= i2 < rooms.len() && (#[trigger] rooms[i2]).offset == (#[trigger] done[j])
                        && !query_holds(*query, rooms[i2]));
                let i2 = choose|i2: int|
                    0 <= i2 < rooms.len() && (#[trigger] rooms[i2]).offset == done[j]
                        && !query_holds(*query, rooms[i2]);
                if i2 != ii {
                    assert(rooms[i2].offset == rooms[ii].offset);
                    assert(false);
                }
            }
        }
        None
    }

    /// Breadth-first search from `start`, crossing only doors that the
    /// policy permits: returns every room offset so reached, in discovery
    /// order, starting with `start` itself. The result is complete: an
    /// offset reachable under the policy is always in it.
    pub fn connected_rooms(&self, start: Offset, policy: &Policy) -> (r: Vec<Offset>)
        requires
            self.wf(),
            has_room_at(self.rooms@, start),
        ensures
            r@.no_duplicates(),
            r@.len() >= 1,
            r@[0] == start,
            forall|j: int|
                0 <= j < r@.len() ==> has_room_at(self.rooms@, #[trigger] r@[j]) && reachable(
                    self.rooms@,
                    policy@,
                    start,
                    r@[j],
                ),
            forall|t: Offset| reachable(self.rooms@, policy@, start, t) ==> r@.contains(t),
    {
        let ghost pol = policy@;
        let mut visited: Vec<Offset> = Vec::new();
        visited.push(start);
        let mut to_visit: Vec<Offset> = Vec::new();
        to_visit.push(start);
        let mut rooms_out: Vec<Offset> = Vec::new();

        proof {
            lemma_reachable_self(self.rooms@, policy@, start);
        }

        while to_visit.len() > 0
            invariant
                self.wf(),
                has_room_at(self.rooms@, start),
                visited@ =~= rooms_out@ + to_visit@,
                visited@.no_duplicates(),
                visited@.len() >= 1,
                visited@[0] == start,
                visited@.len() <= self.rooms@.len(),
                pol == policy@,
                forall|j: int|
                    0 <= j < visited@.len() ==> has_room_at(self.rooms@, #[trigger] visited@[j])
                        && reachable(self.rooms@, policy@, start, visited@[j]),
                forall|o: Offset, b: Offset|
                    rooms_out@.contains(o) && #[trigger] step_ok(self.rooms@, pol, o, b)
                        ==> visited@.contains(b),
            decreases self.rooms@.len() - visited@.len(), to_visit@.len(),
        {
            let offset = to_visit.remove(0);
            proof {
                assert(visited@[rooms_out@.len() as int] == offset);
                assert(visited@.contains(offset));
            }
            let i = match self.room_index(&offset) {
                Some(i) => i,
                None => {
                    proof {
                        let j = choose|j: int| 0 <= j < visited@.len() && visited@[j] == offset;
                        assert(has_room_at(self.rooms@, offset));
                        assert(false);
                    }
                    return rooms_out;
                },
            };
            let ghost done0 = rooms_out@;
            rooms_out.push(offset);
            proof {
                assert(visited@ =~= rooms_out@ + to_visit@);
            }

            let ghost v0 = visited@.len();
            let mut k: usize = 0;
            while k < self.rooms[i].doors.len()
                invariant
                    self.wf(),
                    has_room_at(self.rooms@, start),
                    i < self.rooms@.len(),
                    self.rooms@[i as int].offset == offset,
                    pol == policy@,
                    visited@ =~= rooms_out@ + to_visit@,
                    rooms_out@ == done0.push(offset),
                    visited@.no_duplicates(),
                    visited@.len() >= 1,
                    visited@[0] == start,
                    visited@.len() <= self.rooms@.len(),
                    visited@.len() >= v0,
                    visited@.contains(offset),
                    forall|j: int|
                        0 <= j < visited@.len() ==> has_room_at(self.rooms@, #[trigger] visited@[j])
                            && reachable(self.rooms@, policy@, start, visited@[j]),
                    forall|o: Offset, b: Offset|
                        done0.contains(o) && #[trigger] step_ok(self.rooms@, pol, o, b)
                            ==> visited@.contains(b),
                    k <= self.rooms@[i as int].doors@.len(),
                    forall|k2: int|
                        0 <= k2 < k && can_cross(
                            pol,
                            offset,
                            #[trigger] self.rooms@[i as int].doors@[k2],
                        ) ==> visited@.contains(self.rooms@[i as int].doors@[k2].to),
                decreases self.rooms@[i as int].doors@.len() - k,
            {
                let to = self.rooms[i].doors[k].to;
                let ghost j_off = choose|j: int|
                    0 <= j < visited@.len() && visited@[j] == offset;
                if !contains_offset(&visited, &to) {
                    if can_cross_door(policy, offset, &self.rooms[i].doors[k]) {
                        proof {
                            let rooms = self.rooms@;
                            assert(crate::model::room_wf(rooms, rooms[i as int]));
                            assert(crate::model::door_wf(
                                rooms,
                                offset,
                                rooms[i as int].doors@[k as int],
                            ));
                            assert(step_ok(rooms, policy@, offset, to));
                            lemma_reachable_step(rooms, policy@, start, offset, to);
                            crate::model::lemma_no_duplicates_push(visited@, to);
                        }
                        let ghost vprev = visited@;
                        to_visit.push(to);
                        visited.push(to);
                        proof {
                            crate::model::lemma_distinct_rooms_bound(self.rooms@, visited@);
                            assert(visited@[j_off] == offset);
                            assert(visited@.contains(offset));
                            assert(visited@ =~= rooms_out@ + to_visit@);
                            assert forall|o: Offset, b: Offset|
                                done0.contains(o) && #[trigger] step_ok(
                                    self.rooms@,
                                    pol,
                                    o,
                                    b,
                                ) implies visited@.contains(b) by {
                                assert(vprev.contains(b));
                                crate::model::lemma_contains_after_push(vprev, b, to);
                            }
                            assert forall|k2: int|
                                0 <= k2 < k + 1 && can_cross(
                                    pol,
                                    offset,
                                    #[trigger] self.rooms@[i as int].doors@[k2],
                                ) implies visited@.contains(
                                self.rooms@[i as int].doors@[k2].to,
                            ) by {
                                if k2 < k {
                                    assert(vprev.contains(self.rooms@[i as int].doors@[k2].to));
                                    crate::model::lemma_contains_after_push(
                                        vprev,
                                        self.rooms@[i as int].doors@[k2].to,
                                        to,
                                    );
                                } else {
                                    assert(visited@.last() == to);
                                }
                            }
                        }
                    }
                }
                k += 1;
            }
            proof {
                let rooms = self.rooms@;
                assert forall|o: Offset, b: Offset|
                    rooms_out@.contains(o) && #[trigger] step_ok(rooms, pol, o, b) implies
                    visited@.contains(b) by {
                    if done0.contains(o) {
                        assert(visited@.contains(b));
                    } else {
                        let j = choose|j: int| 0 <= j < rooms_out@.len() && rooms_out@[j] == o;
                        assert(o == offset);
                        let (ri, k2): (int, int) = choose|ri: int, k2: int|
                            0 <= ri < rooms.len() && rooms[ri].offset == o && 0 <= k2
                                < rooms[ri].doors@.len() && rooms[ri].doors@[k2].to == b
                                && can_cross(pol, o, rooms[ri].doors@[k2]);
                        if ri != i {
                            assert(rooms[ri].offset == rooms[i as int].offset);
                            assert(false);
                        }
                        assert(can_cross(pol, offset, rooms[i as int].doors@[k2]));
                        assert(visited@.contains(rooms[i as int].doors@[k2].to));
                    }
                }
            }
        }
        proof {
            assert(visited@ =~= rooms_out@);
            assert(rooms_out@[0] == start);
            assert(rooms_out@.contains(start));
            assert forall|t: Offset| reachable(self.rooms@, policy@, start, t) implies
                rooms_out@.contains(t) by {
                assert forall|o: Offset, b: Offset|
                    rooms_out@.contains(o) && step_ok(self.rooms@, pol, o, b) implies
                    rooms_out@.contains(b) by {
                    assert(visited@.contains(b));
                }
                crate::model::lemma_closed_set_complete(self.rooms@, pol, start, rooms_out@, t);
            }
        }
        rooms_out
    }
}

} // verus!
