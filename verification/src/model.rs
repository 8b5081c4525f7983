//! The mathematical model of a dungeon: well-formedness of the room graph,
//! door-crossing policies, paths, reachability, and key solvability.

use vstd::prelude::*;
use crate::base::{Offset, Side};
use crate::room::{Room, Type};
use crate::door::{Door, Lock};
use crate::entity::{Item, Key, Trigger};

verus! {

/// The classification a room earns from its door count alone.
pub open spec fn classify(n: nat) -> Type {
    if n == 1 {
        Type::End
    } else if n == 2 {
        Type::Hallway
    } else if n == 3 {
        Type::Intersection
    } else if n == 4 {
        Type::Crossing
    } else {
        Type::Invalid
    }
}

/// The room holds no occupant at all.
pub open spec fn unoccupied(r: Room) -> bool {
    &&& r.chest is None
    &&& r.enemy is None
    &&& r.switch is None
}

/// Every door of the room is open: no lock of any kind.
pub open spec fn doors_open(r: Room) -> bool {
    forall|k: int| 0 <= k < r.doors@.len() ==> (#[trigger] r.doors@[k]).lock == Lock::Open
}

/// Whether some room of `rooms` sits at offset `o`.
pub open spec fn has_room_at(rooms: Seq<Room>, o: Offset) -> bool {
    exists|i: int| 0 <= i < rooms.len() && rooms[i].offset == o
}

/// The position of the room at offset `o`; meaningful only when
/// `has_room_at(rooms, o)` holds.
pub open spec fn room_index(rooms: Seq<Room>, o: Offset) -> int {
    choose|i: int| 0 <= i < rooms.len() && rooms[i].offset == o
}

/// The room at offset `o`; meaningful only when `has_room_at(rooms, o)`.
pub open spec fn room_at(rooms: Seq<Room>, o: Offset) -> Room {
    rooms[room_index(rooms, o)]
}

/// No two rooms share an offset.
pub open spec fn offsets_distinct(rooms: Seq<Room>) -> bool {
    forall|i: int, j: int| 0 <= i < j < rooms.len() ==> rooms[i].offset != rooms[j].offset
}

/// A door leads to an adjacent grid cell that holds a room.
pub open spec fn door_wf(rooms: Seq<Room>, at: Offset, d: Door) -> bool {
    at.is_adjacent(d.to) && has_room_at(rooms, d.to)
}

/// All doors of `r` are well-formed and lead to pairwise distinct rooms.
pub open spec fn room_wf(rooms: Seq<Room>, r: Room) -> bool {
    &&& forall|k: int| 0 <= k < r.doors@.len() ==> door_wf(rooms, r.offset, #[trigger] r.doors@[k])
    &&& forall|k1: int, k2: int|
        0 <= k1 < k2 < r.doors@.len() ==> r.doors@[k1].to != r.doors@[k2].to
}

/// The room graph is well-formed: offsets are unique keys, and every door
/// points at a distinct adjacent room of the graph.
pub open spec fn rooms_wf(rooms: Seq<Room>) -> bool {
    &&& offsets_distinct(rooms)
    &&& forall|i: int| 0 <= i < rooms.len() ==> room_wf(rooms, #[trigger] rooms[i])
}

/// Every room coordinate lies within `[lo, hi]`.
pub open spec fn coords_bounded(rooms: Seq<Room>, lo: int, hi: int) -> bool {
    forall|i: int|
        0 <= i < rooms.len() ==> lo <= (#[trigger] rooms[i]).offset.x <= hi && lo
            <= rooms[i].offset.y <= hi
}

/// A door-crossing policy, at the specification level.
pub enum GhostPolicy {
    /// Cross every door, whatever its lock.
    AllDoors,
    /// Cross every door but one locked by the boss key.
    AvoidBossKey,
    /// Stop at the boss door; cross a small-key door only when the given
    /// set of directed door pairs records it as opened.
    WithKeys(Seq<(Offset, Offset)>),
}

/// Whether the policy lets a walker standing at `from` cross door `d`.
pub open spec fn can_cross(pol: GhostPolicy, from: Offset, d: Door) -> bool {
    match pol {
        GhostPolicy::AllDoors => true,
        GhostPolicy::AvoidBossKey => d.lock != Lock::BossKey,
        GhostPolicy::WithKeys(opened) => match d.lock {
            Lock::BossKey => false,
            Lock::SmallKey => opened.contains((from, d.to)),
            _ => true,
        },
    }
}

/// Whether a walker at `a` can move to `b`: some room sits at `a` and one of
/// its doors leads to `b` and may be crossed under the policy.
pub open spec fn step_ok(rooms: Seq<Room>, pol: GhostPolicy, a: Offset, b: Offset) -> bool {
    exists|i: int, k: int|
        0 <= i < rooms.len() && rooms[i].offset == a && 0 <= k < rooms[i].doors@.len()
            && rooms[i].doors@[k].to == b && can_cross(pol, a, rooms[i].doors@[k])
}

/// A non-empty sequence of offsets is a walk through the room graph: it
/// starts in a room, and each consecutive pair is a permitted door crossing.
pub open spec fn path_ok(rooms: Seq<Room>, pol: GhostPolicy, p: Seq<Offset>) -> bool {
    &&& p.len() >= 1
    &&& has_room_at(rooms, p[0])
    &&& forall|i: int| 0 <= i < p.len() - 1 ==> #[trigger] step_ok(rooms, pol, p[i], p[i + 1])
}

/// `to` can be reached from `from` by some walk permitted under the policy.
pub open spec fn reachable(rooms: Seq<Room>, pol: GhostPolicy, from: Offset, to: Offset) -> bool {
    exists|p: Seq<Offset>| path_ok(rooms, pol, p) && p.first() == from && p.last() == to
}

/// A room already in the graph is reachable from itself.
pub proof fn lemma_reachable_self(rooms: Seq<Room>, pol: GhostPolicy, a: Offset)
    requires
        has_room_at(rooms, a),
    ensures
        reachable(rooms, pol, a, a),
{
    let p = seq![a];
    assert(p.len() == 1 && p[0] == a);
    assert(path_ok(rooms, pol, p));
    assert(p.first() == a && p.last() == a);
}

/// A walk extends across one more permitted door crossing.
pub proof fn lemma_path_extend(rooms: Seq<Room>, pol: GhostPolicy, p: Seq<Offset>, c: Offset)
    requires
        path_ok(rooms, pol, p),
        step_ok(rooms, pol, p.last(), c),
    ensures
        path_ok(rooms, pol, p.push(c)),
        p.push(c).first() == p.first(),
        p.push(c).last() == c,
{
    let q = p.push(c);
    assert forall|i: int| 0 <= i < q.len() - 1 implies #[trigger] step_ok(
        rooms,
        pol,
        q[i],
        q[i + 1],
    ) by {
        if i < p.len() - 1 {
            assert(step_ok(rooms, pol, p[i], p[i + 1]));
        } else {
            assert(q[i] == p.last() && q[i + 1] == c);
        }
    }
}

/// Reachability extends across one more permitted door crossing.
pub proof fn lemma_reachable_step(
    rooms: Seq<Room>,
    pol: GhostPolicy,
    a: Offset,
    b: Offset,
    c: Offset,
)
    requires
        reachable(rooms, pol, a, b),
        step_ok(rooms, pol, b, c),
    ensures
        reachable(rooms, pol, a, c),
{
    let p = choose|p: Seq<Offset>| path_ok(rooms, pol, p) && p.first() == a && p.last() == b;
    lemma_path_extend(rooms, pol, p, c);
    assert(path_ok(rooms, pol, p.push(c)));
}

/// Opening more small-key doors never removes a permitted walk.
pub proof fn lemma_reachable_mono(
    rooms: Seq<Room>,
    opened1: Seq<(Offset, Offset)>,
    opened2: Seq<(Offset, Offset)>,
    from: Offset,
    to: Offset,
)
    requires
        reachable(rooms, GhostPolicy::WithKeys(opened1), from, to),
        forall|x: (Offset, Offset)| opened1.contains(x) ==> opened2.contains(x),
    ensures
        reachable(rooms, GhostPolicy::WithKeys(opened2), from, to),
{
    let pol1 = GhostPolicy::WithKeys(opened1);
    let pol2 = GhostPolicy::WithKeys(opened2);
    let p = choose|p: Seq<Offset>| path_ok(rooms, pol1, p) && p.first() == from && p.last() == to;
    assert forall|i: int| 0 <= i < p.len() - 1 implies #[trigger] step_ok(
        rooms,
        pol2,
        p[i],
        p[i + 1],
    ) by {
        assert(step_ok(rooms, pol1, p[i], p[i + 1]));
        let (ri, k): (int, int) = choose|ri: int, k: int|
            0 <= ri < rooms.len() && rooms[ri].offset == p[i] && 0 <= k < rooms[ri].doors@.len()
                && rooms[ri].doors@[k].to == p[i + 1] && can_cross(pol1, p[i], rooms[ri].doors@[k]);
        assert(can_cross(pol2, p[i], rooms[ri].doors@[k]));
    }
    assert(path_ok(rooms, pol2, p));
}

/// A duplicate-free list of offsets that all carry rooms is no longer than
/// the room list: the search frontier therefore stays bounded.
pub proof fn lemma_distinct_rooms_bound(rooms: Seq<Room>, visited: Seq<Offset>)
    requires
        visited.no_duplicates(),
        forall|j: int| 0 <= j < visited.len() ==> has_room_at(rooms, #[trigger] visited[j]),
    ensures
        visited.len() <= rooms.len(),
{
    broadcast use vstd::seq_lib::seq_to_set_is_finite;

    let offsets = rooms.map_values(|r: Room| r.offset);
    visited.unique_seq_to_set();
    offsets.lemma_cardinality_of_set();
    assert forall|o: Offset| visited.to_set().contains(o) implies offsets.to_set().contains(
        o,
    ) by {
        let i = choose|i: int| 0 <= i < rooms.len() && rooms[i].offset == o;
        assert(offsets[i] == o);
        assert(offsets.contains(o));
    }
    assert(visited.to_set().subset_of(offsets.to_set()));
    vstd::set_lib::lemma_len_subset(visited.to_set(), offsets.to_set());
}

/// The room found at position `i` is the room its offset names.
pub proof fn lemma_room_at_index(rooms: Seq<Room>, i: int)
    requires
        offsets_distinct(rooms),
        0 <= i < rooms.len(),
    ensures
        room_at(rooms, rooms[i].offset) == rooms[i],
{
    let o = rooms[i].offset;
    assert(has_room_at(rooms, o));
    let j = room_index(rooms, o);
    assert(0 <= j < rooms.len() && rooms[j].offset == o);
    if i != j {
        assert(rooms[i].offset != rooms[j].offset);
    }
}

/// Membership survives a push.
pub proof fn lemma_contains_after_push<T>(s: Seq<T>, x: T, y: T)
    requires
        s.contains(x),
    ensures
        s.push(y).contains(x),
{
    let j = choose|j: int| 0 <= j < s.len() && s[j] == x;
    assert(s.push(y)[j] == x);
}

/// Pushing a fresh element keeps a sequence duplicate-free.
pub proof fn lemma_no_duplicates_push<T>(s: Seq<T>, x: T)
    requires
        s.no_duplicates(),
        !s.contains(x),
    ensures
        s.push(x).no_duplicates(),
{
    let q = s.push(x);
    assert forall|i: int, j: int| 0 <= i < j < q.len() implies q[i] != q[j] by {
        if j < s.len() {
            assert(s[i] != s[j]);
        } else {
            assert(q[j] == x);
            assert(s[i] == q[i]);
            assert(s.contains(s[i]));
        }
    }
}

/// Each room holds at most one occupant among chest, enemy, and switch.
pub open spec fn occupants_exclusive(rooms: Seq<Room>) -> bool {
    forall|i: int|
        0 <= i < rooms.len() ==> {
            &&& !((#[trigger] rooms[i]).chest is Some && rooms[i].enemy is Some)
            &&& !(rooms[i].chest is Some && rooms[i].switch is Some)
            &&& !(rooms[i].enemy is Some && rooms[i].switch is Some)
        }
}

/// Some door of the room at `at` leads to `back`.
pub open spec fn has_door_back(rooms: Seq<Room>, at: Offset, back: Offset) -> bool {
    exists|i2: int, k2: int|
        0 <= i2 < rooms.len() && rooms[i2].offset == at && 0 <= k2 < rooms[i2].doors@.len() && (
        #[trigger] rooms[i2].doors@[k2]).to == back
}

/// Doors come in mirrored pairs: whenever a room has a door to a neighbour,
/// the neighbour has a door back.
pub open spec fn doors_mirrored(rooms: Seq<Room>) -> bool {
    forall|i: int, k: int|
        0 <= i < rooms.len() && 0 <= k < rooms[i].doors@.len() ==> has_door_back(
            rooms,
            (#[trigger] rooms[i].doors@[k]).to,
            rooms[i].offset,
        )
}

/// Every door's stored side names the side on which its target lies.
pub open spec fn door_sides_consistent(rooms: Seq<Room>) -> bool {
    forall|i: int, k: int|
        0 <= i < rooms.len() && 0 <= k < rooms[i].doors@.len() ==> (
        #[trigger] rooms[i].doors@[k]).side == Side::spec_between(
            rooms[i].offset,
            rooms[i].doors@[k].to,
        )
}

/// The ordered pair `e` is one forward edge of the walk `q`: its owner
/// comes first, one step nearer the walk's start.
pub open spec fn is_edge_of(q: Seq<Offset>, e: (Offset, Offset)) -> bool {
    exists|i: int| 0 <= i < q.len() - 1 && (#[trigger] q[i]) == e.0 && q[i + 1] == e.1
}

/// The small-key locks of `post` confine themselves to the boss-key walk
/// `bk` and the boss-door walk `bd`, both walks of `pre` out of the same
/// start: every door that gained a small-key lock is a forward edge of one
/// of them, owned by the room nearer the start.
pub open spec fn small_locks_on_paths(
    pre: Seq<Room>,
    post: Seq<Room>,
    start: Offset,
    bk: Seq<Offset>,
    bd: Seq<Offset>,
) -> bool {
    &&& path_ok(pre, GhostPolicy::AllDoors, bk)
    &&& bk.first() == start
    &&& exists|i: int|
        0 <= i < pre.len() && (#[trigger] pre[i]).offset == bk.last() && holds_boss_key(pre[i])
    &&& forall|w: Seq<Offset>|
        #[trigger] crate::search::matching_walk(
            pre,
            crate::search::RoomQuery::BossKeyChest,
            start,
            w,
        ) ==> w.len() >= bk.len()
    &&& path_ok(pre, GhostPolicy::AllDoors, bd)
    &&& bd.first() == start
    &&& exists|i: int|
        0 <= i < pre.len() && (#[trigger] pre[i]).offset == bd.last() && (pre[i].enemy matches Some(
            en,
        ) && en.typ == crate::entity::EnemyKind::Boss)
    &&& forall|w: Seq<Offset>|
        #[trigger] crate::search::matching_walk(
            pre,
            crate::search::RoomQuery::BossEnemy,
            start,
            w,
        ) ==> w.len() >= bd.len()
    &&& forall|i: int, k: int|
        0 <= i < post.len() && 0 <= k < post[i].doors@.len() && (#[trigger] post[i].doors@[k]).lock
            == Lock::SmallKey && i < pre.len() && k < pre[i].doors@.len() ==> is_edge_of(
            bk,
            (pre[i].offset, pre[i].doors@[k].to),
        ) || is_edge_of(bd, (pre[i].offset, pre[i].doors@[k].to))
}

/// Rooms `b` are rooms `a` with some open doors now locked by small keys,
/// and nothing else changed: offsets, classifications, occupants, door
/// targets, sides, and triggers all agree, and a door's lock either stands
/// as it was or moved from open to small-key.
pub open spec fn only_small_locks_added(a: Seq<Room>, b: Seq<Room>) -> bool {
    &&& a.len() == b.len()
    &&& forall|i: int|
        0 <= i < a.len() ==> {
            &&& (#[trigger] b[i]).offset == a[i].offset
            &&& b[i].typ == a[i].typ
            &&& b[i].chest == a[i].chest
            &&& b[i].enemy == a[i].enemy
            &&& b[i].switch == a[i].switch
            &&& b[i].doors@.len() == a[i].doors@.len()
        }
    &&& forall|i: int, k: int|
        0 <= i < a.len() && 0 <= k < a[i].doors@.len() ==> {
            &&& (#[trigger] b[i].doors@[k]).to == a[i].doors@[k].to
            &&& b[i].doors@[k].side == a[i].doors@[k].side
            &&& b[i].doors@[k].triggers == a[i].doors@[k].triggers
            &&& (b[i].doors@[k].lock == a[i].doors@[k].lock || (a[i].doors@[k].lock == Lock::Open
                && b[i].doors@[k].lock == Lock::SmallKey))
        }
}

/// Adding small-key locks in two stages adds them in one.
pub proof fn lemma_only_small_locks_trans(a: Seq<Room>, b: Seq<Room>, c: Seq<Room>)
    requires
        only_small_locks_added(a, b),
        only_small_locks_added(b, c),
    ensures
        only_small_locks_added(a, c),
{
    assert forall|i: int| 0 <= i < a.len() implies {
        &&& (#[trigger] c[i]).offset == a[i].offset
        &&& c[i].typ == a[i].typ
        &&& c[i].chest == a[i].chest
        &&& c[i].enemy == a[i].enemy
        &&& c[i].switch == a[i].switch
        &&& c[i].doors@.len() == a[i].doors@.len()
    } by {
        assert(b[i].offset == a[i].offset && c[i].offset == b[i].offset);
    }
    assert forall|i: int, k: int| 0 <= i < a.len() && 0 <= k < a[i].doors@.len() implies {
        &&& (#[trigger] c[i].doors@[k]).to == a[i].doors@[k].to
        &&& c[i].doors@[k].side == a[i].doors@[k].side
        &&& c[i].doors@[k].triggers == a[i].doors@[k].triggers
        &&& (c[i].doors@[k].lock == a[i].doors@[k].lock || (a[i].doors@[k].lock == Lock::Open
            && c[i].doors@[k].lock == Lock::SmallKey))
    } by {
        assert(b[i].doors@[k].to == a[i].doors@[k].to);
        assert(c[i].doors@[k].to == b[i].doors@[k].to);
    }
}

/// A set of offsets that contains the start and is closed under permitted
/// door crossings catches every offset reachable from the start.
pub proof fn lemma_closed_set_complete(
    rooms: Seq<Room>,
    pol: GhostPolicy,
    start: Offset,
    seen: Seq<Offset>,
    t: Offset,
)
    requires
        rooms_wf(rooms),
        seen.contains(start),
        forall|o: Offset, b: Offset| seen.contains(o) && step_ok(rooms, pol, o, b) ==> seen.contains(b),
        reachable(rooms, pol, start, t),
    ensures
        seen.contains(t),
{
    let p = choose|p: Seq<Offset>| path_ok(rooms, pol, p) && p.first() == start && p.last() == t;
    lemma_closed_set_walk(rooms, pol, start, seen, p, p.len() - 1);
}

/// Every offset along a permitted walk out of a closed set stays inside it.
proof fn lemma_closed_set_walk(
    rooms: Seq<Room>,
    pol: GhostPolicy,
    start: Offset,
    seen: Seq<Offset>,
    p: Seq<Offset>,
    i: int,
)
    requires
        rooms_wf(rooms),
        seen.contains(start),
        forall|o: Offset, b: Offset| seen.contains(o) && step_ok(rooms, pol, o, b) ==> seen.contains(b),
        path_ok(rooms, pol, p),
        p.first() == start,
        0 <= i < p.len(),
    ensures
        seen.contains(p[i]),
    decreases i,
{
    if i == 0 {
        assert(p[0] == start);
    } else {
        lemma_closed_set_walk(rooms, pol, start, seen, p, i - 1);
        assert(step_ok(rooms, pol, p[i - 1], p[(i - 1) + 1]));
        assert(step_ok(rooms, pol, p[i - 1], p[i]));
    }
}

/// Whether the room holds a small key in any of its occupant forms: a chest
/// with a small key, or a switch or enemy whose triggers grant one.
pub open spec fn holds_small_key(r: Room) -> bool {
    ||| (r.chest matches Some(c) && c.item == Item::Key(Key::Small))
    ||| (r.switch matches Some(s) && s.triggers@.contains(Trigger::Item(Item::Key(Key::Small))))
    ||| (r.enemy matches Some(e) && e.triggers@.contains(Trigger::Item(Item::Key(Key::Small))))
}

/// Whether the room's chest holds the boss key.
pub open spec fn holds_boss_key(r: Room) -> bool {
    r.chest matches Some(c) && c.item == Item::Key(Key::Boss)
}

/// How many doors of this sequence are locked by a small key.
pub open spec fn door_seq_smallkeys(doors: Seq<Door>) -> nat
    decreases doors.len(),
{
    if doors.len() == 0 {
        0
    } else {
        door_seq_smallkeys(doors.drop_last()) + if doors.last().lock == Lock::SmallKey {
            1nat
        } else {
            0nat
        }
    }
}

/// How many doors of the whole graph are locked by a small key, counting
/// each direction separately.
pub open spec fn smallkey_door_count(rooms: Seq<Room>) -> nat
    decreases rooms.len(),
{
    if rooms.len() == 0 {
        0
    } else {
        smallkey_door_count(rooms.drop_last()) + door_seq_smallkeys(rooms.last().doors@)
    }
}

/// A room that may host a key: not the exit, and without any occupant.
pub open spec fn is_empty_room(r: Room) -> bool {
    r.typ != Type::Exit && unoccupied(r)
}

/// How many rooms may host a key.
pub open spec fn empty_room_count(rooms: Seq<Room>) -> nat
    decreases rooms.len(),
{
    if rooms.len() == 0 {
        0
    } else {
        empty_room_count(rooms.drop_last()) + if is_empty_room(rooms.last()) {
            1nat
        } else {
            0nat
        }
    }
}

/// Offset `o` carries a room that may host a key.
pub open spec fn empty_room_offset(rooms: Seq<Room>, o: Offset) -> bool {
    exists|i: int|
        0 <= i < rooms.len() && (#[trigger] rooms[i]).offset == o && is_empty_room(rooms[i])
}

/// Every room carries the classification its door count earns.
pub open spec fn classified(rooms: Seq<Room>) -> bool {
    forall|i: int|
        0 <= i < rooms.len() ==> (#[trigger] rooms[i]).typ == classify(rooms[i].doors@.len())
}

/// No door anywhere is locked by a small key.
pub open spec fn no_smallkey_locks(rooms: Seq<Room>) -> bool {
    forall|i: int, k: int|
        0 <= i < rooms.len() && 0 <= k < rooms[i].doors@.len() ==> (
        #[trigger] rooms[i].doors@[k]).lock != Lock::SmallKey
}

/// In a well-formed graph, every offset on a walk carries a room.
pub proof fn lemma_path_elements(rooms: Seq<Room>, pol: GhostPolicy, p: Seq<Offset>)
    requires
        rooms_wf(rooms),
        path_ok(rooms, pol, p),
    ensures
        forall|i: int| 0 <= i < p.len() ==> has_room_at(rooms, #[trigger] p[i]),
{
    assert forall|i: int| 0 <= i < p.len() implies has_room_at(rooms, #[trigger] p[i]) by {
        if i > 0 {
            let j = i - 1;
            assert(step_ok(rooms, pol, p[j], p[j + 1]));
            assert(step_ok(rooms, pol, p[i - 1], p[i]));
            let (ri, k): (int, int) = choose|ri: int, k: int|
                0 <= ri < rooms.len() && rooms[ri].offset == p[i - 1] && 0 <= k
                    < rooms[ri].doors@.len() && rooms[ri].doors@[k].to == p[i] && can_cross(
                    pol,
                    p[i - 1],
                    rooms[ri].doors@[k],
                );
            assert(room_wf(rooms, rooms[ri]));
            assert(door_wf(rooms, rooms[ri].offset, rooms[ri].doors@[k]));
        }
    }
}

/// A door sequence without small-key locks counts zero small keys.
pub proof fn lemma_open_door_seq_no_smallkeys(doors: Seq<Door>)
    requires
        forall|k: int| 0 <= k < doors.len() ==> (#[trigger] doors[k]).lock != Lock::SmallKey,
    ensures
        door_seq_smallkeys(doors) == 0,
    decreases doors.len(),
{
    if doors.len() > 0 {
        lemma_open_door_seq_no_smallkeys(doors.drop_last());
        assert(doors.last() == doors[doors.len() - 1]);
    }
}

/// A graph without small-key locks counts zero small-key doors.
pub proof fn lemma_no_locks_no_smallkeys(rooms: Seq<Room>)
    requires
        no_smallkey_locks(rooms),
    ensures
        smallkey_door_count(rooms) == 0,
    decreases rooms.len(),
{
    if rooms.len() > 0 {
        assert(no_smallkey_locks(rooms.drop_last())) by {
            assert forall|i: int, k: int|
                0 <= i < rooms.drop_last().len() && 0 <= k
                    < rooms.drop_last()[i].doors@.len() implies (
            #[trigger] rooms.drop_last()[i].doors@[k]).lock != Lock::SmallKey by {
                assert(rooms.drop_last()[i] == rooms[i]);
                assert(rooms[i].doors@[k].lock != Lock::SmallKey);
            }
        }
        lemma_no_locks_no_smallkeys(rooms.drop_last());
        assert(rooms.last() == rooms[rooms.len() - 1]);
        assert forall|k: int|
            0 <= k < rooms.last().doors@.len() implies (#[trigger] rooms.last().doors@[k]).lock
            != Lock::SmallKey by {
            assert(rooms[rooms.len() - 1].doors@[k].lock != Lock::SmallKey);
        }
        lemma_open_door_seq_no_smallkeys(rooms.last().doors@);
    }
}

/// A door sequence counting zero small keys has none.
pub proof fn lemma_door_seq_no_smallkeys_from_count(doors: Seq<Door>)
    requires
        door_seq_smallkeys(doors) == 0,
    ensures
        forall|k: int| 0 <= k < doors.len() ==> (#[trigger] doors[k]).lock != Lock::SmallKey,
    decreases doors.len(),
{
    if doors.len() > 0 {
        lemma_door_seq_no_smallkeys_from_count(doors.drop_last());
        assert forall|k: int| 0 <= k < doors.len() implies (#[trigger] doors[k]).lock
            != Lock::SmallKey by {
            if k < doors.len() - 1 {
                assert(doors.drop_last()[k] == doors[k]);
            } else {
                assert(doors.last() == doors[k]);
            }
        }
    }
}

/// A graph counting zero small-key doors has no small-key lock.
pub proof fn lemma_no_smallkeys_from_count(rooms: Seq<Room>)
    requires
        smallkey_door_count(rooms) == 0,
    ensures
        no_smallkey_locks(rooms),
    decreases rooms.len(),
{
    if rooms.len() > 0 {
        lemma_no_smallkeys_from_count(rooms.drop_last());
        lemma_door_seq_no_smallkeys_from_count(rooms.last().doors@);
        assert forall|i: int, k: int|
            0 <= i < rooms.len() && 0 <= k < rooms[i].doors@.len() implies (
        #[trigger] rooms[i].doors@[k]).lock != Lock::SmallKey by {
            if i < rooms.len() - 1 {
                assert(rooms.drop_last()[i] == rooms[i]);
                assert(rooms.drop_last()[i].doors@[k].lock != Lock::SmallKey);
            } else {
                assert(rooms.last() == rooms[i]);
                assert(rooms.last().doors@[k].lock != Lock::SmallKey);
            }
        }
    }
}

/// Turning the open lock of exactly one door into a small-key lock raises
/// the door sequence's small-key count by one.
pub proof fn lemma_door_seq_count_bump(pre: Seq<Door>, post: Seq<Door>, k: int)
    requires
        pre.len() == post.len(),
        0 <= k < pre.len(),
        forall|j: int| 0 <= j < pre.len() && j != k ==> #[trigger] post[j] == pre[j],
        pre[k].lock != Lock::SmallKey,
        post[k].lock == Lock::SmallKey,
    ensures
        door_seq_smallkeys(post) == door_seq_smallkeys(pre) + 1,
    decreases pre.len(),
{
    if k == pre.len() - 1 {
        assert(pre.drop_last() =~= post.drop_last());
    } else {
        lemma_door_seq_count_bump(pre.drop_last(), post.drop_last(), k);
        assert(post.last() == pre.last());
    }
}

/// Locking exactly one open door with a small key raises the graph's
/// small-key door count by one.
pub proof fn lemma_smallkey_count_bump(pre: Seq<Room>, post: Seq<Room>, i: int, k: int)
    requires
        pre.len() == post.len(),
        0 <= i < pre.len(),
        forall|j: int| 0 <= j < pre.len() && j != i ==> #[trigger] post[j] == pre[j],
        pre[i].doors@.len() == post[i].doors@.len(),
        0 <= k < pre[i].doors@.len(),
        forall|j: int|
            0 <= j < pre[i].doors@.len() && j != k ==> #[trigger] post[i].doors@[j]
                == pre[i].doors@[j],
        pre[i].doors@[k].lock != Lock::SmallKey,
        post[i].doors@[k].lock == Lock::SmallKey,
    ensures
        smallkey_door_count(post) == smallkey_door_count(pre) + 1,
    decreases pre.len(),
{
    if i == pre.len() - 1 {
        assert(pre.drop_last() =~= post.drop_last());
        lemma_door_seq_count_bump(pre.last().doors@, post.last().doors@, k);
    } else {
        assert forall|j: int|
            0 <= j < pre.drop_last().len() && j != i implies #[trigger] post.drop_last()[j]
            == pre.drop_last()[j] by {
            assert(post[j] == pre[j]);
        }
        assert(pre.drop_last()[i] == pre[i] && post.drop_last()[i] == post[i]);
        lemma_smallkey_count_bump(pre.drop_last(), post.drop_last(), i, k);
        assert(post.last() == pre.last());
    }
}

/// A well-formed graph that holds a junction (a room of three or more
/// doors) holds at least three rooms: the junction's neighbours are
/// pairwise distinct rooms.
pub proof fn lemma_junction_needs_rooms(rooms: Seq<Room>)
    requires
        rooms_wf(rooms),
        exists|i: int| 0 <= i < rooms.len() && (#[trigger] rooms[i]).doors@.len() >= 3,
    ensures
        rooms.len() >= 3,
{
    let i = choose|i: int| 0 <= i < rooms.len() && (#[trigger] rooms[i]).doors@.len() >= 3;
    let r = rooms[i];
    assert(room_wf(rooms, r));
    assert(door_wf(rooms, r.offset, r.doors@[0]));
    assert(door_wf(rooms, r.offset, r.doors@[1]));
    assert(door_wf(rooms, r.offset, r.doors@[2]));
    let j0 = choose|j: int| 0 <= j < rooms.len() && rooms[j].offset == r.doors@[0].to;
    let j1 = choose|j: int| 0 <= j < rooms.len() && rooms[j].offset == r.doors@[1].to;
    let j2 = choose|j: int| 0 <= j < rooms.len() && rooms[j].offset == r.doors@[2].to;
    assert(rooms[j0].offset != rooms[j1].offset);
    assert(rooms[j0].offset != rooms[j2].offset);
    assert(rooms[j1].offset != rooms[j2].offset);
}

/// Appending a fresh room adjacent to room `ti`, linked to it by a mirrored
/// door pair, keeps the graph well-formed.
pub proof fn lemma_wf_link(old_s: Seq<Room>, new_s: Seq<Room>, ti: int, fresh: Offset)
    requires
        rooms_wf(old_s),
        0 <= ti < old_s.len(),
        !has_room_at(old_s, fresh),
        old_s[ti].offset.is_adjacent(fresh),
        fresh.is_adjacent(old_s[ti].offset),
        new_s.len() == old_s.len() + 1,
        forall|i: int| 0 <= i < old_s.len() && i != ti ==> #[trigger] new_s[i] == old_s[i],
        new_s[ti].offset == old_s[ti].offset,
        new_s[ti].doors@.len() == old_s[ti].doors@.len() + 1,
        forall|k: int|
            0 <= k < old_s[ti].doors@.len() ==> #[trigger] new_s[ti].doors@[k]
                == old_s[ti].doors@[k],
        new_s[ti].doors@.last().to == fresh,
        new_s.last().offset == fresh,
        new_s.last().doors@.len() == 1,
        new_s.last().doors@[0].to == old_s[ti].offset,
    ensures
        rooms_wf(new_s),
        forall|o: Offset| has_room_at(old_s, o) ==> has_room_at(new_s, o),
        has_room_at(new_s, fresh),
{
    assert forall|o: Offset| has_room_at(old_s, o) implies has_room_at(new_s, o) by {
        let i = choose|i: int| 0 <= i < old_s.len() && old_s[i].offset == o;
        assert(new_s[i].offset == o);
    }
    assert(new_s[new_s.len() - 1].offset == fresh);
    assert(offsets_distinct(new_s)) by {
        assert forall|i: int, j: int| 0 <= i < j < new_s.len() implies new_s[i].offset
            != new_s[j].offset by {
            if j < old_s.len() {
                assert(old_s[i].offset != old_s[j].offset);
            } else {
                assert(new_s[j].offset == fresh);
                assert(new_s[i].offset == old_s[i].offset);
            }
        }
    }
    assert forall|i: int| 0 <= i < new_s.len() implies room_wf(new_s, #[trigger] new_s[i]) by {
        if i < old_s.len() {
            assert(room_wf(old_s, old_s[i]));
            assert forall|k: int| 0 <= k < new_s[i].doors@.len() implies door_wf(
                new_s,
                new_s[i].offset,
                #[trigger] new_s[i].doors@[k],
            ) by {
                if i != ti || k < old_s[i].doors@.len() {
                    assert(new_s[i].doors@[k] == old_s[i].doors@[k]);
                    assert(door_wf(old_s, old_s[i].offset, old_s[i].doors@[k]));
                } else {
                    assert(new_s[i].doors@[k].to == fresh);
                }
            }
            assert forall|k1: int, k2: int|
                0 <= k1 < k2 < new_s[i].doors@.len() implies new_s[i].doors@[k1].to
                != new_s[i].doors@[k2].to by {
                if i == ti && k2 == new_s[i].doors@.len() - 1 {
                    assert(new_s[i].doors@[k1] == old_s[i].doors@[k1]);
                    assert(door_wf(old_s, old_s[i].offset, old_s[i].doors@[k1]));
                    assert(has_room_at(old_s, old_s[i].doors@[k1].to));
                    assert(new_s[i].doors@[k2].to == fresh);
                } else {
                    assert(old_s[i].doors@[k1].to != old_s[i].doors@[k2].to);
                }
            }
        } else {
            assert(new_s[i] == new_s.last());
            assert(new_s[i].doors@[0].to == old_s[ti].offset);
            assert(new_s[ti].offset == old_s[ti].offset);
        }
    }
}

/// Rooms `b` are rooms `a` with only locks, triggers, classifications, or
/// occupants changed: offsets, door counts, and door targets agree.
pub open spec fn same_shape(a: Seq<Room>, b: Seq<Room>) -> bool {
    &&& a.len() == b.len()
    &&& forall|i: int|
        0 <= i < a.len() ==> (#[trigger] b[i]).offset == a[i].offset && b[i].doors@.len()
            == a[i].doors@.len()
    &&& forall|i: int, k: int|
        0 <= i < a.len() && 0 <= k < a[i].doors@.len() ==> (#[trigger] b[i].doors@[k]).to
            == a[i].doors@[k].to
}

/// Shape agreement is transitive.
pub proof fn lemma_same_shape_trans(a: Seq<Room>, b: Seq<Room>, c: Seq<Room>)
    requires
        same_shape(a, b),
        same_shape(b, c),
    ensures
        same_shape(a, c),
{
    assert forall|i: int, k: int|
        0 <= i < a.len() && 0 <= k < a[i].doors@.len() implies (#[trigger] c[i].doors@[k]).to
        == a[i].doors@[k].to by {
        assert(b[i].doors@[k].to == a[i].doors@[k].to);
        assert(c[i].doors@[k].to == b[i].doors@[k].to);
    }
}

/// Changing rooms without touching their offsets or where their doors lead
/// (locks, triggers, types, and occupants may change) keeps the graph
/// well-formed, and keeps every offset occupied.
pub proof fn lemma_wf_same_shape(old_s: Seq<Room>, new_s: Seq<Room>)
    requires
        rooms_wf(old_s),
        same_shape(old_s, new_s),
    ensures
        rooms_wf(new_s),
        forall|o: Offset| has_room_at(old_s, o) <==> has_room_at(new_s, o),
{
    assert forall|o: Offset| has_room_at(old_s, o) implies has_room_at(new_s, o) by {
        let i = choose|i: int| 0 <= i < old_s.len() && old_s[i].offset == o;
        assert(new_s[i].offset == o);
    }
    assert forall|o: Offset| has_room_at(new_s, o) implies has_room_at(old_s, o) by {
        let i = choose|i: int| 0 <= i < new_s.len() && new_s[i].offset == o;
        assert(old_s[i].offset == o);
    }
    assert forall|i: int| 0 <= i < new_s.len() implies room_wf(new_s, #[trigger] new_s[i]) by {
        assert(room_wf(old_s, old_s[i]));
        assert forall|k: int| 0 <= k < new_s[i].doors@.len() implies door_wf(
            new_s,
            new_s[i].offset,
            #[trigger] new_s[i].doors@[k],
        ) by {
            assert(door_wf(old_s, old_s[i].offset, old_s[i].doors@[k]));
        }
        assert forall|k1: int, k2: int|
            0 <= k1 < k2 < new_s[i].doors@.len() implies new_s[i].doors@[k1].to
            != new_s[i].doors@[k2].to by {
            assert(old_s[i].doors@[k1].to != old_s[i].doors@[k2].to);
        }
    }
}

/// Shifting every room and every door target by one common delta keeps the
/// graph well-formed: adjacency, uniqueness, and membership are all
/// invariant under translation.
pub proof fn lemma_wf_translate(old_s: Seq<Room>, new_s: Seq<Room>, m: Offset)
    requires
        rooms_wf(old_s),
        new_s.len() == old_s.len(),
        forall|i: int|
            0 <= i < old_s.len() ==> (#[trigger] new_s[i]).offset.x == old_s[i].offset.x - m.x && (
            #[trigger] new_s[i]).offset.y == old_s[i].offset.y - m.y && new_s[i].doors@.len()
                == old_s[i].doors@.len(),
        forall|i: int, k: int|
            0 <= i < old_s.len() && 0 <= k < old_s[i].doors@.len() ==> (
            #[trigger] new_s[i].doors@[k]).to.x == old_s[i].doors@[k].to.x - m.x && (
            #[trigger] new_s[i].doors@[k]).to.y == old_s[i].doors@[k].to.y - m.y,
    ensures
        rooms_wf(new_s),
{
    assert forall|i: int| 0 <= i < new_s.len() implies room_wf(new_s, #[trigger] new_s[i]) by {
        assert(room_wf(old_s, old_s[i]));
        assert forall|k: int| 0 <= k < new_s[i].doors@.len() implies door_wf(
            new_s,
            new_s[i].offset,
            #[trigger] new_s[i].doors@[k],
        ) by {
            assert(door_wf(old_s, old_s[i].offset, old_s[i].doors@[k]));
            let j = choose|j: int|
                0 <= j < old_s.len() && old_s[j].offset == old_s[i].doors@[k].to;
            assert(new_s[j].offset == new_s[i].doors@[k].to);
        }
        assert forall|k1: int, k2: int|
            0 <= k1 < k2 < new_s[i].doors@.len() implies new_s[i].doors@[k1].to
            != new_s[i].doors@[k2].to by {
            assert(old_s[i].doors@[k1].to != old_s[i].doors@[k2].to);
        }
    }
}

/// The directed pair `e` names a small-key door of the graph.
pub open spec fn is_smallkey_door(rooms: Seq<Room>, e: (Offset, Offset)) -> bool {
    exists|i: int, k: int|
        0 <= i < rooms.len() && rooms[i].offset == e.0 && 0 <= k < rooms[i].doors@.len()
            && rooms[i].doors@[k].to == e.1 && rooms[i].doors@[k].lock == Lock::SmallKey
}

/// Every small-key door of the graph occurs in `order`.
pub open spec fn covers_smallkey_doors(rooms: Seq<Room>, order: Seq<(Offset, Offset)>) -> bool {
    forall|i: int, k: int|
        0 <= i < rooms.len() && 0 <= k < rooms[i].doors@.len() && (#[trigger] rooms[i].doors@[k]).lock
            == Lock::SmallKey ==> order.contains((rooms[i].offset, rooms[i].doors@[k].to))
}

/// A witness that keys are always picked up before they are needed: the
/// small-key doors can be opened in the order given, and door `k` has its
/// own distinct key room `keyrooms[k]`, reachable from the entrance before
/// door `k` itself is opened, crossing only doors opened earlier.
pub open spec fn key_order_ok(
    rooms: Seq<Room>,
    entrance: Offset,
    order: Seq<(Offset, Offset)>,
    keyrooms: Seq<Offset>,
) -> bool {
    &&& order.no_duplicates()
    &&& keyrooms.no_duplicates()
    &&& keyrooms.len() == order.len()
    &&& forall|k: int|
        0 <= k < order.len() ==> is_smallkey_door(rooms, #[trigger] order[k]) && reachable(
            rooms,
            GhostPolicy::WithKeys(order.take(k)),
            entrance,
            order[k].0,
        )
    &&& forall|k: int|
        0 <= k < keyrooms.len() ==> has_room_at(rooms, #[trigger] keyrooms[k]) && holds_small_key(
            room_at(rooms, keyrooms[k]),
        ) && reachable(rooms, GhostPolicy::WithKeys(order.take(k)), entrance, keyrooms[k])
}

/// Simulating key pickup from the entrance unlocks every small-key door of
/// the graph before it is needed: some opening order exists in which each
/// door is reachable when its turn comes, funded by a fresh reachable key.
pub open spec fn keys_solvable(rooms: Seq<Room>, entrance: Offset) -> bool {
    exists|order: Seq<(Offset, Offset)>, keyrooms: Seq<Offset>|
        key_order_ok(rooms, entrance, order, keyrooms) && covers_smallkey_doors(rooms, order)
}

} // verus!
