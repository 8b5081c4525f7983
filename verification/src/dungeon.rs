//! The dungeon aggregate and the generation pipeline.

use vstd::prelude::*;
use rand::StdRng;
use crate::base::{Side, Offset};
use crate::room::{Room, Type};
use crate::door::Lock;
use crate::path::Path;
use crate::rng::{gen_range_i32, gen_range_usize, shuffle};
use crate::entity::{Chest, Enemy, EnemyKind, Item, Key, Switch, Trigger};
use crate::model::{
    rooms_wf, coords_bounded, has_room_at, room_wf, unoccupied, doors_open, classify, classified,
    no_smallkey_locks, same_shape, lemma_same_shape_trans, lemma_wf_link, lemma_wf_same_shape,
    lemma_wf_translate, lemma_path_elements, lemma_junction_needs_rooms, GhostPolicy, reachable,
};
use crate::order::{sort_paths_desc, sort_edges_desc, lemma_contains_via_multiset};
use crate::path::ConnectedPath;
use crate::search::RoomQuery;

verus! {

/// The rooms of an unfinished walk: a well-formed graph of unclassified,
/// unoccupied rooms whose doors are all open, with coordinates no farther
/// from the origin than the number of rooms placed.
pub open spec fn walk_rooms_ok(rooms: Seq<Room>) -> bool {
    &&& rooms_wf(rooms)
    &&& forall|i: int|
        0 <= i < rooms.len() ==> unoccupied(#[trigger] rooms[i]) && doors_open(rooms[i])
            && rooms[i].typ == Type::Invalid
    &&& coords_bounded(rooms, -(rooms.len() as int), rooms.len() as int)
}

/// The backtracking stack holds offsets of placed rooms, with the current
/// position on top.
pub open spec fn walk_stack_ok(rooms: Seq<Room>, stack: Seq<Offset>, offset: Offset) -> bool {
    &&& forall|j: int| 0 <= j < stack.len() ==> has_room_at(rooms, #[trigger] stack[j])
    &&& stack.len() > 0 ==> stack.last() == offset
    &&& rooms.len() > 0 ==> stack.len() > 0
}

/// Offset `o` carries an end room: a room with exactly one door.
pub open spec fn end_room_offset(rooms: Seq<Room>, o: Offset) -> bool {
    exists|i: int|
        0 <= i < rooms.len() && (#[trigger] rooms[i]).offset == o && rooms[i].typ == Type::End
}

/// One of the first `n` rooms sits at `o` and is an end room.
pub open spec fn end_room_before(rooms: Seq<Room>, o: Offset, n: int) -> bool {
    exists|w: int|
        0 <= w < n && (#[trigger] rooms[w]).offset == o && rooms[w].typ == Type::End
}

/// A usable end-path: a duplicate-free walk of the graph that starts at an
/// end room, visits no junction before its last element, and ends at a
/// nearest junction of at least three doors: no shorter walk from the same
/// end room reaches any junction.
pub open spec fn arm_ok(rooms: Seq<Room>, p: Path) -> bool {
    &&& crate::model::path_ok(rooms, GhostPolicy::AllDoors, p.0@)
    &&& p.0@.no_duplicates()
    &&& end_room_offset(rooms, p.0@.first())
    &&& crate::search::prefix_fails(rooms, crate::search::RoomQuery::Junction, p.0@)
    &&& exists|i: int|
        0 <= i < rooms.len() && (#[trigger] rooms[i]).offset == p.0@.last()
            && rooms[i].doors@.len() >= 3
    &&& forall|w: Seq<Offset>|
        #[trigger] crate::search::matching_walk(
            rooms,
            crate::search::RoomQuery::Junction,
            p.0@.first(),
            w,
        ) ==> w.len() >= p.0@.len()
}

/// The position of the room at offset `o` in a plain room list, if any.
pub fn find_room_in(rooms: &Vec<Room>, o: &Offset) -> (r: Option<usize>)
    ensures
        match r {
            Some(i) => i < rooms@.len() && rooms@[i as int].offset == *o,
            None => !has_room_at(rooms@, *o),
        },
{
    let mut i: usize = 0;
    while i < rooms.len()
        invariant
            i <= rooms@.len(),
            forall|j: int| 0 <= j < i ==> rooms@[j].offset != *o,
        decreases rooms@.len() - i,
    {
        if rooms[i].offset == *o {
            return Some(i);
        }
        i += 1;
    }
    None
}

/// The largest supported target room count. The walk moves one grid step per
/// room, so coordinates stay within `[-MAX_ROOMS, MAX_ROOMS]` before
/// normalisation and `[0, 2 * MAX_ROOMS]` after; the deterministic sort key
/// `x + y * 1000` then still fits an `i32`.
pub const MAX_ROOMS: usize = 1000000;

/// A dungeon: the room graph keyed by offset, with the entrance, boss, and
/// exit rooms referenced by offset once assigned.
#[derive(Debug, PartialEq, Eq)]
pub struct Dungeon {
    pub entrance_room: Option<Offset>,
    pub boss_room: Option<Offset>,
    pub exit_room: Option<Offset>,
    pub rooms: Vec<Room>,
}

impl Dungeon {
    /// The room graph is well-formed, coordinates are normalised within the
    /// supported range, and the special-room references point at rooms.
    pub open spec fn wf(self) -> bool {
        &&& rooms_wf(self.rooms@)
        &&& coords_bounded(self.rooms@, 0, 2 * MAX_ROOMS as int)
        &&& (self.entrance_room matches Some(e) ==> has_room_at(self.rooms@, e))
        &&& (self.boss_room matches Some(b) ==> has_room_at(self.rooms@, b))
        &&& (self.exit_room matches Some(x) ==> has_room_at(self.rooms@, x))
    }

    /// An empty dungeon with nothing assigned.
    pub fn new() -> (r: Dungeon)
        ensures
            r.wf(),
            r.rooms@.len() == 0,
            r.entrance_room is None,
            r.boss_room is None,
            r.exit_room is None,
    {
        Dungeon { entrance_room: None, boss_room: None, exit_room: None, rooms: Vec::new() }
    }

    /// The position of the room at offset `o` in the room list, if any.
    pub fn room_index(&self, o: &Offset) -> (r: Option<usize>)
        ensures
            match r {
                Some(i) => i < self.rooms@.len() && self.rooms@[i as int].offset == *o,
                None => !has_room_at(self.rooms@, *o),
            },
    {
        let mut i: usize = 0;
        while i < self.rooms.len()
            invariant
                i <= self.rooms@.len(),
                forall|j: int| 0 <= j < i ==> self.rooms@[j].offset != *o,
            decreases self.rooms@.len() - i,
        {
            if self.rooms[i].offset == *o {
                return Some(i);
            }
            i += 1;
        }
        None
    }

    /// Whether a room exists at offset `o`.
    pub fn contains_room(&self, o: &Offset) -> (r: bool)
        ensures
            r == has_room_at(self.rooms@, *o),
    {
        self.room_index(o).is_some()
    }

    /// Grows a connected set of at most `max_rooms` rooms by a randomised
    /// walk with a backtracking stack, links graph neighbours by mirrored
    /// door pairs, classifies every room by its door count, and translates
    /// all coordinates so the minimal corner becomes non-negative.
    ///
    /// The walk may stop short of the target count (a dead end with an
    /// emptied stack, or an exhausted step budget); later stages judge
    /// whether what was built suffices.
    #[verifier::rlimit(30)]
    fn create_rooms(&mut self, rng: &mut StdRng, max_rooms: usize)
        requires
            old(self).rooms@.len() == 0,
            old(self).entrance_room is None,
            old(self).boss_room is None,
            old(self).exit_room is None,
            0 < max_rooms <= MAX_ROOMS,
        ensures
            final(self).wf(),
            final(self).rooms@.len() <= max_rooms,
            final(self).entrance_room is None,
            final(self).boss_room is None,
            final(self).exit_room is None,
            forall|i: int|
                0 <= i < final(self).rooms@.len() ==> unoccupied(#[trigger] final(self).rooms@[i])
                    && doors_open(final(self).rooms@[i]) && final(self).rooms@[i].typ == classify(
                    final(self).rooms@[i].doors@.len(),
                ),
            final(self).rooms@.len() > 0 ==> (exists|i: int|
                0 <= i < final(self).rooms@.len() && (#[trigger] final(self).rooms@[i]).offset.x
                    == 0) && (exists|i: int|
                0 <= i < final(self).rooms@.len() && (#[trigger] final(self).rooms@[i]).offset.y
                    == 0),
    {
        let max_corridor_length: i32 = 2;
        let mut next_dir = Side::from_i32(gen_range_i32(rng, 0, 4));
        let mut hall_length: i32 = gen_range_i32(rng, 1, max_corridor_length);
        let mut offset = Offset::default();
        let mut room_stack = Path::new();
        let mut rooms: Vec<Room> = Vec::new();

        // The walk draws fresh random positions until the target count is
        // reached or the stack empties; a generous step budget bounds the
        // loop, and an exhausted budget merely stops the walk short.
        let budget: usize = 64 * max_rooms;
        let mut spins: usize = 0;

        let mut index: usize = 0;
        while index < max_rooms && spins < budget
            invariant
                0 < max_rooms <= MAX_ROOMS,
                max_corridor_length == 2,
                budget == 64 * max_rooms,
                spins <= budget,
                index == rooms@.len(),
                index <= max_rooms,
                walk_rooms_ok(rooms@),
                walk_stack_ok(rooms@, room_stack.0@, offset),
                next_dir == Side::Nowhere ==> has_room_at(rooms@, offset),
                hall_length == 1,
                -(index as int) <= offset.x <= index as int,
                -(index as int) <= offset.y <= index as int,
                rooms@.len() > 0 ==> -1 <= rooms@[0].offset.x <= 1 && -1 <= rooms@[0].offset.y
                    <= 1,
            decreases budget - spins,
        {
            spins += 1;

            // Drop a random number of rooms from the stack and continue
            // generating from the new top.
            let rooms_to_drop = gen_range_usize(rng, 0, 1 + room_stack.0.len() / 2);
            if rooms_to_drop > 0 {
                let ghost s0len = room_stack.0@.len() as int;
                let mut di: usize = 0;
                while di < rooms_to_drop - 1
                    invariant
                        1 <= rooms_to_drop,
                        rooms_to_drop < 1 + s0len / 2,
                        2 <= s0len,
                        di <= rooms_to_drop - 1,
                        room_stack.0@.len() == s0len - di,
                        forall|j: int|
                            0 <= j < room_stack.0@.len() ==> has_room_at(
                                rooms@,
                                #[trigger] room_stack.0@[j],
                            ),
                    decreases rooms_to_drop - 1 - di,
                {
                    room_stack.0.pop();
                    di += 1;
                }
                offset = room_stack.0[room_stack.0.len() - 1];
                proof {
                    let j = choose|j: int| 0 <= j < rooms@.len() && rooms@[j].offset == offset;
                    assert(-(index as int) <= offset.x <= index as int);
                }
                next_dir = Side::from_i32(gen_range_i32(rng, 0, 4));
                hall_length = gen_range_i32(rng, 1, max_corridor_length);
            }

            // Create the next run of rooms.
            while index < max_rooms
                invariant
                    0 < max_rooms <= MAX_ROOMS,
                    max_corridor_length == 2,
                    index == rooms@.len(),
                    index <= max_rooms,
                    walk_rooms_ok(rooms@),
                    walk_stack_ok(rooms@, room_stack.0@, offset),
                    next_dir == Side::Nowhere ==> has_room_at(rooms@, offset),
                    hall_length == 1,
                    -(index as int) <= offset.x <= index as int,
                    -(index as int) <= offset.y <= index as int,
                    rooms@.len() > 0 ==> -1 <= rooms@[0].offset.x <= 1 && -1 <= rooms@[0].offset.y
                        <= 1,
                decreases max_rooms - index,
            {
                // Move one step; when the cell ahead is taken, try all four
                // sides in a random order for a free adjacent cell.
                let mut next_offset = offset.add(next_dir.to_offset());
                if find_room_in(&rooms, &next_offset).is_some() {
                    next_dir = Side::Nowhere;
                    let mut sides = Side::get_all();
                    shuffle(rng, &mut sides);
                    proof {
                        broadcast use vstd::seq_lib::group_to_multiset_ensures;

                        let orig = seq![Side::North, Side::East, Side::South, Side::West];
                        assert(!orig.contains(Side::Nowhere));
                        assert forall|j: int| 0 <= j < sides@.len() implies #[trigger] sides@[j]
                            != Side::Nowhere by {
                            assert(sides@.contains(sides@[j]));
                            assert(sides@.to_multiset().count(sides@[j]) > 0);
                            assert(orig.to_multiset().count(sides@[j]) > 0);
                            assert(orig.contains(sides@[j]));
                        }
                    }
                    let ghost sides_snap = sides@;
                    let mut si: usize = 0;
                    while si < sides.len() && next_dir == Side::Nowhere
                        invariant
                            si <= sides@.len(),
                            sides@ == sides_snap,
                            forall|j: int|
                                0 <= j < sides@.len() ==> #[trigger] sides@[j] != Side::Nowhere,
                            index == rooms@.len(),
                            index <= max_rooms <= MAX_ROOMS,
                            -(index as int) <= offset.x <= index as int,
                            -(index as int) <= offset.y <= index as int,
                            next_dir != Side::Nowhere ==> {
                                &&& next_offset == (Offset {
                                    x: (offset.x + next_dir.spec_delta().x) as i32,
                                    y: (offset.y + next_dir.spec_delta().y) as i32,
                                })
                                &&& !has_room_at(rooms@, next_offset)
                            },
                        decreases sides@.len() - si,
                    {
                        let cand = offset.add(sides[si].to_offset());
                        if find_room_in(&rooms, &cand).is_none() {
                            next_dir = sides[si];
                            next_offset = cand;
                        }
                        si += 1;
                    }
                    // No free adjacent cell: dead end, resume from the stack.
                    if next_dir == Side::Nowhere {
                        break;
                    }
                }

                proof {
                    assert(next_dir != Side::Nowhere);
                    assert(!has_room_at(rooms@, next_offset));
                    assert(offset.is_adjacent(next_offset) && next_offset.is_adjacent(offset));
                    assert(-(index as int) - 1 <= next_offset.x <= index as int + 1);
                    assert(-(index as int) - 1 <= next_offset.y <= index as int + 1);
                }

                // A small chance of abandoning this run early keeps dead
                // ends appearing even where space is free.
                let variance = gen_range_i32(rng, 0, 255);
                if variance < 25 {
                    break;
                }

                // Advance, and place a room at the new position, linked to
                // the room on top of the stack by a mirrored door pair.
                let ghost old_offset = offset;
                offset = next_offset;
                hall_length = hall_length - 1;

                let mut room = Room::new(offset.x, offset.y);
                if room_stack.0.len() > 0 {
                    let top = room_stack.0[room_stack.0.len() - 1];
                    let ti = match find_room_in(&rooms, &top) {
                        Some(t) => t,
                        None => {
                            proof {
                                assert(false);
                            }
                            return ;
                        },
                    };
                    room.add_door_to(&rooms[ti]);
                    let ghost before = rooms@;
                    let mut other = rooms.remove(ti);
                    other.add_door_to(&room);
                    rooms.insert(ti, other);
                    rooms.push(room);
                    proof {
                        assert(rooms@.len() == before.len() + 1);
                        assert forall|i: int| 0 <= i < before.len() && i != ti implies
                            #[trigger] rooms@[i] == before[i] by {}
                        assert(rooms@[ti as int].doors@.take(before[ti as int].doors@.len() as int)
                            =~= before[ti as int].doors@);
                        assert forall|k: int|
                            0 <= k < before[ti as int].doors@.len() implies #[trigger] rooms@[ti as int].doors@[k]
                            == before[ti as int].doors@[k] by {
                            assert(rooms@[ti as int].doors@.take(
                                before[ti as int].doors@.len() as int,
                            )[k] == rooms@[ti as int].doors@[k]);
                        }
                        assert(before[ti as int].offset == top && top == old_offset);
                        lemma_wf_link(before, rooms@, ti as int, offset);
                        assert(walk_rooms_ok(rooms@)) by {
                            assert forall|i: int| 0 <= i < rooms@.len() implies unoccupied(
                                #[trigger] rooms@[i],
                            ) && doors_open(rooms@[i]) && rooms@[i].typ == Type::Invalid by {
                                if i < before.len() {
                                    assert(unoccupied(before[i]) && before[i].typ
                                        == Type::Invalid);
                                    assert(doors_open(before[i]));
                                    if i == ti {
                                        assert forall|k: int|
                                            0 <= k < rooms@[i].doors@.len() implies (
                                        #[trigger] rooms@[i].doors@[k]).lock == Lock::Open by {
                                            if k < before[i].doors@.len() {
                                                assert(rooms@[i].doors@[k]
                                                    == before[i].doors@[k]);
                                            } else {
                                                assert(rooms@[i].doors@[k]
                                                    == rooms@[i].doors@.last());
                                            }
                                        }
                                    }
                                } else {
                                    assert(rooms@[i] == rooms@.last());
                                    assert forall|k: int|
                                        0 <= k < rooms@[i].doors@.len() implies (
                                    #[trigger] rooms@[i].doors@[k]).lock == Lock::Open by {
                                        assert(rooms@[i].doors@[k] == rooms@[i].doors@[0]);
                                    }
                                }
                            }
                            assert(coords_bounded(
                                rooms@,
                                -(rooms@.len() as int),
                                rooms@.len() as int,
                            ));
                        }
                    }
                } else {
                    let ghost before = rooms@;
                    rooms.push(room);
                    proof {
                        assert forall|o: Offset| has_room_at(before, o) implies has_room_at(
                            rooms@,
                            o,
                        ) by {
                            let i = choose|i: int| 0 <= i < before.len() && before[i].offset == o;
                            assert(rooms@[i].offset == o);
                        }
                        assert(rooms_wf(rooms@)) by {
                            assert forall|i: int, j: int|
                                0 <= i < j < rooms@.len() implies rooms@[i].offset
                                != rooms@[j].offset by {
                                if j < before.len() {
                                    assert(before[i].offset != before[j].offset);
                                } else {
                                    assert(rooms@[j].offset == offset);
                                    assert(rooms@[i].offset == before[i].offset);
                                }
                            }
                            assert forall|i: int| 0 <= i < rooms@.len() implies room_wf(
                                rooms@,
                                #[trigger] rooms@[i],
                            ) by {
                                if i < before.len() {
                                    assert(room_wf(before, before[i]));
                                    assert forall|k: int|
                                        0 <= k < rooms@[i].doors@.len() implies crate::model::door_wf(
                                        rooms@,
                                        rooms@[i].offset,
                                        #[trigger] rooms@[i].doors@[k],
                                    ) by {
                                        assert(crate::model::door_wf(
                                            before,
                                            before[i].offset,
                                            before[i].doors@[k],
                                        ));
                                    }
                                }
                            }
                        }
                        assert(has_room_at(rooms@, offset)) by {
                            assert(rooms@.last().offset == offset);
                        }
                    }
                }
                room_stack.0.push(offset);
                index += 1;

                // The corridor ran out, or the variance says to bend it:
                // draw a fresh direction and corridor length.
                if hall_length == 0 || variance < 100 {
                    next_dir = Side::from_i32(gen_range_i32(rng, 0, 4));
                    hall_length = gen_range_i32(rng, 1, max_corridor_length);
                }
            }

            // An empty stack leaves nowhere to resume from.
            if room_stack.0.len() == 0 {
                break;
            }
        }

        self.finish_rooms(rooms);
    }

    /// The offsets of the rooms that may host a key: not the exit, and with
    /// no occupant yet. The result is sorted by the fixed linear key, so
    /// later seeded draws see a deterministic order.
    fn empty_rooms(&self) -> (r: Vec<Offset>)
        requires
            self.wf(),
        ensures
            r@.len() == crate::model::empty_room_count(self.rooms@),
            crate::order::keys_sorted(r@),
            forall|j: int|
                0 <= j < r@.len() ==> crate::model::empty_room_offset(
                    self.rooms@,
                    #[trigger] r@[j],
                ),
            forall|i: int|
                0 <= i < self.rooms@.len() && crate::model::is_empty_room(#[trigger] self.rooms@[i])
                    ==> r@.contains(self.rooms@[i].offset),
    {
        broadcast use vstd::seq_lib::group_to_multiset_ensures;

        let mut empty: Vec<Offset> = Vec::new();
        let mut i: usize = 0;
        while i < self.rooms.len()
            invariant
                self.wf(),
                i <= self.rooms@.len(),
                empty@.len() == crate::model::empty_room_count(self.rooms@.take(i as int)),
                forall|j: int|
                    0 <= j < empty@.len() ==> crate::model::empty_room_offset(
                        self.rooms@,
                        #[trigger] empty@[j],
                    ),
                forall|w: int|
                    0 <= w < i && crate::model::is_empty_room(#[trigger] self.rooms@[w])
                        ==> empty@.contains(self.rooms@[w].offset),
            decreases self.rooms@.len() - i,
        {
            let room = &self.rooms[i];
            let skip = if room.typ == Type::Exit {
                true
            } else if room.enemy.is_some() {
                true
            } else if room.chest.is_some() {
                true
            } else {
                room.switch.is_some()
            };
            proof {
                assert(self.rooms@.take(i + 1).drop_last() =~= self.rooms@.take(i as int));
                assert(self.rooms@.take(i + 1).last() == self.rooms@[i as int]);
                assert(skip == !crate::model::is_empty_room(self.rooms@[i as int]));
                assert(crate::model::empty_room_count(self.rooms@.take(i + 1))
                    == crate::model::empty_room_count(self.rooms@.take(i as int)) + (
                if crate::model::is_empty_room(self.rooms@[i as int]) {
                    1nat
                } else {
                    0nat
                }));
            }
            let ghost empty0 = empty@;
            if !skip {
                empty.push(room.offset);
                proof {
                    assert(crate::model::empty_room_offset(self.rooms@, empty@.last()));
                    assert forall|w: int|
                        0 <= w < i + 1 && crate::model::is_empty_room(
                            #[trigger] self.rooms@[w],
                        ) implies empty@.contains(self.rooms@[w].offset) by {
                        if w < i {
                            assert(empty0.contains(self.rooms@[w].offset));
                            let e = choose|e: int|
                                0 <= e < empty0.len() && empty0[e] == self.rooms@[w].offset;
                            assert(empty@[e] == self.rooms@[w].offset);
                        } else {
                            assert(empty@.last() == self.rooms@[w].offset);
                        }
                    }
                }
            }
            i += 1;
        }
        proof {
            assert(self.rooms@.take(self.rooms@.len() as int) =~= self.rooms@);
        }
        let ghost before_sort = empty@;
        crate::order::sort_offsets(&mut empty);
        proof {
            assert forall|j: int| 0 <= j < empty@.len() implies crate::model::empty_room_offset(
                self.rooms@,
                #[trigger] empty@[j],
            ) by {
                assert(empty@.contains(empty@[j]));
                assert(empty@.to_multiset().count(empty@[j]) > 0);
                assert(before_sort.to_multiset().count(empty@[j]) > 0);
                assert(before_sort.contains(empty@[j]));
                let b = choose|b: int| 0 <= b < before_sort.len() && before_sort[b] == empty@[j];
                assert(crate::model::empty_room_offset(self.rooms@, before_sort[b]));
            }
            assert forall|w: int|
                0 <= w < self.rooms@.len() && crate::model::is_empty_room(
                    #[trigger] self.rooms@[w],
                ) implies empty@.contains(self.rooms@[w].offset) by {
                assert(before_sort.contains(self.rooms@[w].offset));
                assert(before_sort.to_multiset().count(self.rooms@[w].offset) > 0);
                assert(empty@.to_multiset().count(self.rooms@[w].offset) > 0);
            }
        }
        empty
    }

    /// The paths from every end room to its nearest junction, one per end
    /// room that reaches one, in the deterministic end-room order. Every end
    /// room from which a junction is reachable contributes an arm.
    fn end_room_paths(&self) -> (r: Vec<Path>)
        requires
            self.wf(),
            crate::model::classified(self.rooms@),
        ensures
            forall|j: int| 0 <= j < r@.len() ==> arm_ok(self.rooms@, #[trigger] r@[j]),
            forall|j1: int, j2: int|
                0 <= j1 < j2 < r@.len() ==> crate::order::offset_key(
                    (#[trigger] r@[j1]).0@.first(),
                ) <= crate::order::offset_key((#[trigger] r@[j2]).0@.first()) && r@[j1].0@.first()
                    != r@[j2].0@.first(),
            forall|i: int|
                0 <= i < self.rooms@.len() && (#[trigger] self.rooms@[i]).typ == Type::End && (
                exists|t: int|
                    0 <= t < self.rooms@.len() && ((#[trigger] self.rooms@[t]).typ
                        == Type::Intersection || self.rooms@[t].typ == Type::Crossing)
                        && reachable(
                        self.rooms@,
                        GhostPolicy::AllDoors,
                        self.rooms@[i].offset,
                        self.rooms@[t].offset,
                    )) ==> exists|j: int|
                    0 <= j < r@.len() && (#[trigger] r@[j]).0@.first() == self.rooms@[i].offset,
    {
        broadcast use vstd::seq_lib::group_to_multiset_ensures;

        // Collect all end rooms, in the fixed deterministic order.
        let mut end_rooms: Vec<Offset> = Vec::new();
        let mut i: usize = 0;
        while i < self.rooms.len()
            invariant
                self.wf(),
                i <= self.rooms@.len(),
                end_rooms@.no_duplicates(),
                forall|j: int|
                    0 <= j < end_rooms@.len() ==> end_room_before(
                        self.rooms@,
                        #[trigger] end_rooms@[j],
                        i as int,
                    ),
                forall|j: int|
                    0 <= j < end_rooms@.len() ==> end_room_offset(
                        self.rooms@,
                        #[trigger] end_rooms@[j],
                    ) && 0 <= end_rooms@[j].x <= 2000000 && 0 <= end_rooms@[j].y <= 2000000,
                forall|w: int|
                    0 <= w < i && (#[trigger] self.rooms@[w]).typ == Type::End
                        ==> end_rooms@.contains(self.rooms@[w].offset),
            decreases self.rooms@.len() - i,
        {
            let ghost before = end_rooms@;
            if self.rooms[i].typ == Type::End {
                proof {
                    assert(!end_rooms@.contains(self.rooms@[i as int].offset)) by {
                        if end_rooms@.contains(self.rooms@[i as int].offset) {
                            let j = choose|j: int|
                                0 <= j < end_rooms@.len() && end_rooms@[j]
                                    == self.rooms@[i as int].offset;
                            assert(end_room_before(self.rooms@, end_rooms@[j], i as int));
                            let w = choose|w: int|
                                0 <= w < i && (#[trigger] self.rooms@[w]).offset == end_rooms@[j]
                                    && self.rooms@[w].typ == Type::End;
                            assert(self.rooms@[w].offset == self.rooms@[i as int].offset);
                        }
                    }
                    crate::model::lemma_no_duplicates_push(
                        end_rooms@,
                        self.rooms@[i as int].offset,
                    );
                }
                end_rooms.push(self.rooms[i].offset);
            }
            proof {
                assert forall|w: int|
                    0 <= w < i + 1 && (#[trigger] self.rooms@[w]).typ == Type::End implies
                    end_rooms@.contains(self.rooms@[w].offset) by {
                    if w < i {
                        assert(before.contains(self.rooms@[w].offset));
                        let e = choose|e: int|
                            0 <= e < before.len() && before[e] == self.rooms@[w].offset;
                        assert(end_rooms@[e] == self.rooms@[w].offset);
                    } else {
                        assert(end_rooms@.last() == self.rooms@[w].offset);
                    }
                }
            }
            i += 1;
        }
        let ghost pre_sort = end_rooms@;
        crate::order::sort_offsets(&mut end_rooms);
        proof {
            assert forall|j: int| 0 <= j < end_rooms@.len() implies end_room_offset(
                self.rooms@,
                #[trigger] end_rooms@[j],
            ) by {
                assert(end_rooms@.contains(end_rooms@[j]));
                lemma_contains_via_multiset(pre_sort, end_rooms@, end_rooms@[j]);
                let b = choose|b: int| 0 <= b < pre_sort.len() && pre_sort[b] == end_rooms@[j];
                assert(end_room_offset(self.rooms@, pre_sort[b]));
            }
            assert forall|w: int|
                0 <= w < self.rooms@.len() && (#[trigger] self.rooms@[w]).typ == Type::End implies
                end_rooms@.contains(self.rooms@[w].offset) by {
                assert(pre_sort.contains(self.rooms@[w].offset));
                lemma_contains_via_multiset(end_rooms@, pre_sort, self.rooms@[w].offset);
            }
            // Distinctness survives the sort: the contents are the same
            // multiset.
            pre_sort.lemma_multiset_has_no_duplicates();
            end_rooms@.lemma_multiset_has_no_duplicates_conv();
            assert(end_rooms@.no_duplicates());
        }

        // Collect the path from each end room to the first junction; where
        // the search proves no junction reachable, the end room has no arm.
        let mut paths: Vec<Path> = Vec::new();
        let ghost mut sel: Seq<int> = Seq::empty();
        let mut n: usize = 0;
        while n < end_rooms.len()
            invariant
                self.wf(),
                crate::model::classified(self.rooms@),
                n <= end_rooms@.len(),
                end_rooms@.no_duplicates(),
                crate::order::keys_sorted(end_rooms@),
                forall|j: int|
                    0 <= j < end_rooms@.len() ==> end_room_offset(
                        self.rooms@,
                        #[trigger] end_rooms@[j],
                    ),
                sel.len() == paths@.len(),
                forall|j: int| 0 <= j < sel.len() ==> 0 <= #[trigger] sel[j] && sel[j] < n,
                forall|j: int|
                    0 <= j < sel.len() ==> (#[trigger] paths@[j]).0@.first()
                        == end_rooms@[sel[j]],
                forall|j1: int, j2: int|
                    0 <= j1 < j2 < sel.len() ==> #[trigger] sel[j1] < #[trigger] sel[j2],
                forall|j: int| 0 <= j < paths@.len() ==> arm_ok(self.rooms@, #[trigger] paths@[j]),
                forall|m: int|
                    0 <= m < n && (exists|t: int|
                        0 <= t < self.rooms@.len() && ((#[trigger] self.rooms@[t]).typ
                            == Type::Intersection || self.rooms@[t].typ == Type::Crossing)
                            && reachable(
                            self.rooms@,
                            GhostPolicy::AllDoors,
                            #[trigger] end_rooms@[m],
                            self.rooms@[t].offset,
                        )) ==> exists|j: int|
                        0 <= j < paths@.len() && (#[trigger] paths@[j]).0@.first()
                            == end_rooms@[m],
            decreases end_rooms@.len() - n,
        {
            let query = crate::search::RoomQuery::Junction;
            let ghost paths0 = paths@;
            proof {
                let w = choose|w: int|
                    0 <= w < self.rooms@.len() && self.rooms@[w].offset == end_rooms@[n as int]
                        && self.rooms@[w].typ == Type::End;
                assert(has_room_at(self.rooms@, end_rooms@[n as int]));
            }
            match self.find_room_path(end_rooms[n], &query) {
                Some(p) => {
                    proof {
                        let i2 = choose|i2: int|
                            0 <= i2 < self.rooms@.len() && (#[trigger] self.rooms@[i2]).offset
                                == p.0@.last() && crate::search::query_holds(
                                query,
                                self.rooms@[i2],
                            );
                        assert(self.rooms@[i2].typ == classify(self.rooms@[i2].doors@.len()));
                        assert(self.rooms@[i2].doors@.len() >= 3);
                        assert forall|w: Seq<Offset>|
                            #[trigger] crate::search::matching_walk(
                                self.rooms@,
                                crate::search::RoomQuery::Junction,
                                p.0@.first(),
                                w,
                            ) implies w.len() >= p.0@.len() by {
                            assert(crate::search::matching_walk(
                                self.rooms@,
                                crate::search::RoomQuery::Junction,
                                end_rooms@[n as int],
                                w,
                            ));
                        }
                        assert(arm_ok(self.rooms@, p));
                    }
                    let ghost pv = p;
                    paths.push(p);
                    proof {
                        let ghost sel0 = sel;
                        sel = sel.push(n as int);
                        assert(paths@.last() == pv);
                        assert(pv.0@.first() == end_rooms@[n as int]);
                        assert forall|j: int|
                            0 <= j < sel.len() implies 0 <= #[trigger] sel[j] && sel[j] < n + 1
                            && (#[trigger] paths@[j]).0@.first() == end_rooms@[sel[j]] by {
                            if j < sel.len() - 1 {
                                assert(sel[j] == sel0[j]);
                                assert(0 <= sel0[j] && sel0[j] < n);
                                assert(paths@[j] == paths@.take(paths@.len() - 1)[j]);
                            } else {
                                assert(sel[j] == n as int);
                                assert(paths@[j] == pv);
                            }
                        }
                        assert forall|j1: int, j2: int|
                            0 <= j1 < j2 < sel.len() implies #[trigger] sel[j1] < #[trigger] sel[j2] by {
                            if j2 < sel.len() - 1 {
                                assert(sel[j1] == sel0[j1] && sel[j2] == sel0[j2]);
                                assert(sel0[j1] < sel0[j2]);
                            } else {
                                assert(sel[j2] == n as int);
                                assert(sel[j1] == sel0[j1]);
                                assert(0 <= sel0[j1] && sel0[j1] < n);
                            }
                        }
                    }
                },
                None => {},
            }
            proof {
                assert forall|m: int|
                    0 <= m < n + 1 && (exists|t: int|
                        0 <= t < self.rooms@.len() && ((#[trigger] self.rooms@[t]).typ
                            == Type::Intersection || self.rooms@[t].typ == Type::Crossing)
                            && reachable(
                            self.rooms@,
                            GhostPolicy::AllDoors,
                            #[trigger] end_rooms@[m],
                            self.rooms@[t].offset,
                        )) implies exists|j: int|
                        0 <= j < paths@.len() && (#[trigger] paths@[j]).0@.first()
                            == end_rooms@[m] by {
                    if m < n {
                        let j = choose|j: int|
                            0 <= j < paths0.len() && (#[trigger] paths0[j]).0@.first()
                                == end_rooms@[m];
                        assert(paths@[j].0@.first() == end_rooms@[m]);
                    } else {
                        let t = choose|t: int|
                            0 <= t < self.rooms@.len() && ((#[trigger] self.rooms@[t]).typ
                                == Type::Intersection || self.rooms@[t].typ == Type::Crossing)
                                && reachable(
                                self.rooms@,
                                GhostPolicy::AllDoors,
                                end_rooms@[m],
                                self.rooms@[t].offset,
                            );
                        assert(crate::search::query_holds(query, self.rooms@[t]));
                        assert(paths@.len() > paths0.len());
                        assert(paths@.last().0@.first() == end_rooms@[m]);
                    }
                }
            }
            n += 1;
        }
        proof {
            assert forall|i2: int|
                0 <= i2 < self.rooms@.len() && (#[trigger] self.rooms@[i2]).typ == Type::End && (
                exists|t: int|
                    0 <= t < self.rooms@.len() && ((#[trigger] self.rooms@[t]).typ
                        == Type::Intersection || self.rooms@[t].typ == Type::Crossing)
                        && reachable(
                        self.rooms@,
                        GhostPolicy::AllDoors,
                        self.rooms@[i2].offset,
                        self.rooms@[t].offset,
                    )) implies exists|j: int|
                0 <= j < paths@.len() && (#[trigger] paths@[j]).0@.first()
                    == self.rooms@[i2].offset by {
                assert(end_rooms@.contains(self.rooms@[i2].offset));
                let m = choose|m: int|
                    0 <= m < end_rooms@.len() && end_rooms@[m] == self.rooms@[i2].offset;
            }
            // The arms inherit the end rooms' deterministic order: their
            // start offsets follow ascending keys, one arm per end room.
            assert forall|j1: int, j2: int|
                0 <= j1 < j2 < paths@.len() implies crate::order::offset_key(
                (#[trigger] paths@[j1]).0@.first(),
            ) <= crate::order::offset_key((#[trigger] paths@[j2]).0@.first())
                && paths@[j1].0@.first() != paths@[j2].0@.first() by {
                assert(paths@[j1].0@.first() == end_rooms@[sel[j1]]);
                assert(paths@[j2].0@.first() == end_rooms@[sel[j2]]);
                assert(sel[j1] < sel[j2]);
            }
        }
        paths
    }

    /// Classifies every walked room by its door count and translates all
    /// coordinates so the minimal corner becomes `(0, 0)`, then installs the
    /// result as the dungeon's room graph.
    fn finish_rooms(&mut self, rooms: Vec<Room>)
        requires
            old(self).rooms@.len() == 0,
            old(self).entrance_room is None,
            old(self).boss_room is None,
            old(self).exit_room is None,
            walk_rooms_ok(rooms@),
            rooms@.len() <= MAX_ROOMS,
            rooms@.len() > 0 ==> -1 <= rooms@[0].offset.x <= 1 && -1 <= rooms@[0].offset.y <= 1,
        ensures
            final(self).wf(),
            final(self).rooms@.len() == rooms@.len(),
            final(self).entrance_room is None,
            final(self).boss_room is None,
            final(self).exit_room is None,
            forall|i: int|
                0 <= i < final(self).rooms@.len() ==> unoccupied(#[trigger] final(self).rooms@[i])
                    && doors_open(final(self).rooms@[i]) && final(self).rooms@[i].typ == classify(
                    final(self).rooms@[i].doors@.len(),
                ),
            final(self).rooms@.len() > 0 ==> (exists|i: int|
                0 <= i < final(self).rooms@.len() && (#[trigger] final(self).rooms@[i]).offset.x
                    == 0) && (exists|i: int|
                0 <= i < final(self).rooms@.len() && (#[trigger] final(self).rooms@[i]).offset.y
                    == 0),
    {
        let mut rooms = rooms;
        let ghost n0 = rooms@.len() as int;

        // Set room connection types from the door counts.
        let mut ci: usize = 0;
        while ci < rooms.len()
            invariant
                rooms@.len() == n0 <= MAX_ROOMS,
                ci <= n0,
                rooms_wf(rooms@),
                coords_bounded(rooms@, -n0, n0),
                forall|i: int|
                    0 <= i < n0 ==> unoccupied(#[trigger] rooms@[i]) && doors_open(rooms@[i]),
                forall|i: int|
                    0 <= i < ci ==> (#[trigger] rooms@[i]).typ == classify(rooms@[i].doors@.len()),
                n0 > 0 ==> -1 <= rooms@[0].offset.x <= 1 && -1 <= rooms@[0].offset.y <= 1,
            decreases n0 - ci,
        {
            let n = rooms[ci].doors.len();
            let t = if n == 1 {
                Type::End
            } else if n == 2 {
                Type::Hallway
            } else if n == 3 {
                Type::Intersection
            } else if n == 4 {
                Type::Crossing
            } else {
                Type::Invalid
            };
            let ghost before = rooms@;
            let mut r = rooms.remove(ci);
            r.typ = t;
            rooms.insert(ci, r);
            proof {
                assert forall|i: int| 0 <= i < n0 && i != ci implies #[trigger] rooms@[i]
                    == before[i] by {}
                assert(rooms@[ci as int].doors@ == before[ci as int].doors@);
                assert(crate::model::same_shape(before, rooms@));
                lemma_wf_same_shape(before, rooms@);
            }
            ci += 1;
        }

        // Calculate the minimal corner of the bounding box.
        let mut min = Offset { x: 9999, y: 9999 };
        let mut bi: usize = 0;
        while bi < rooms.len()
            invariant
                rooms@.len() == n0 <= MAX_ROOMS,
                bi <= n0,
                coords_bounded(rooms@, -n0, n0),
                min.x <= 9999,
                min.y <= 9999,
                min.x >= -n0,
                min.y >= -n0,
                forall|j: int|
                    0 <= j < bi ==> min.x <= (#[trigger] rooms@[j]).offset.x && min.y
                        <= rooms@[j].offset.y,
                n0 > 0 ==> -1 <= rooms@[0].offset.x <= 1 && -1 <= rooms@[0].offset.y <= 1,
                bi == 0 ==> min.x == 9999 && min.y == 9999,
                bi > 0 ==> min.x <= 1 && exists|w: int|
                    0 <= w < n0 && (#[trigger] rooms@[w]).offset.x == min.x,
                bi > 0 ==> min.y <= 1 && exists|w: int|
                    0 <= w < n0 && (#[trigger] rooms@[w]).offset.y == min.y,
            decreases n0 - bi,
        {
            let ghost pre_minx = min.x;
            let ghost pre_miny = min.y;
            if rooms[bi].offset.x < min.x {
                min.x = rooms[bi].offset.x;
            }
            if rooms[bi].offset.y < min.y {
                min.y = rooms[bi].offset.y;
            }
            proof {
                assert(exists|w: int|
                    0 <= w < n0 && (#[trigger] rooms@[w]).offset.x == min.x) by {
                    if min.x == rooms@[bi as int].offset.x {
                        assert(rooms@[bi as int].offset.x == min.x);
                    } else {
                        assert(min.x == pre_minx && bi > 0);
                        assert(exists|w: int|
                            0 <= w < n0 && (#[trigger] rooms@[w]).offset.x == pre_minx);
                    }
                }
                assert(exists|w: int|
                    0 <= w < n0 && (#[trigger] rooms@[w]).offset.y == min.y) by {
                    if min.y == rooms@[bi as int].offset.y {
                        assert(rooms@[bi as int].offset.y == min.y);
                    } else {
                        assert(min.y == pre_miny && bi > 0);
                        assert(exists|w: int|
                            0 <= w < n0 && (#[trigger] rooms@[w]).offset.y == pre_miny);
                    }
                }
            }
            bi += 1;
        }

        // Translate every room, and every door's target, by the minimal
        // corner, so coordinates start at the top-left bounding corner.
        let ghost orig = rooms@;
        let mut ti: usize = 0;
        while ti < rooms.len()
            invariant
                rooms@.len() == n0 <= MAX_ROOMS,
                orig.len() == n0,
                ti <= n0,
                rooms_wf(orig),
                coords_bounded(orig, -n0, n0),
                min.x <= 9999,
                min.y <= 9999,
                min.x >= -n0,
                min.y >= -n0,
                forall|j: int|
                    0 <= j < n0 ==> min.x <= (#[trigger] orig[j]).offset.x && min.y
                        <= orig[j].offset.y,
                n0 > 0 ==> exists|w: int| 0 <= w < n0 && (#[trigger] orig[w]).offset.x == min.x,
                n0 > 0 ==> exists|w: int| 0 <= w < n0 && (#[trigger] orig[w]).offset.y == min.y,
                forall|j: int| ti <= j < n0 ==> #[trigger] rooms@[j] == orig[j],
                forall|j: int| 0 <= j < ti ==> translated_room(orig[j], #[trigger] rooms@[j], min),
            decreases n0 - ti,
        {
            let ghost before = rooms@;
            let mut r = rooms.remove(ti);
            proof {
                assert(before[ti as int] == orig[ti as int]);
                assert(r == orig[ti as int]);
                assert(crate::model::room_wf(orig, orig[ti as int]));
            }
            let ghost r0 = r;
            r.offset = r.offset.sub(min);
            let mut dk: usize = 0;
            while dk < r.doors.len()
                invariant
                    ti < n0,
                    r0 == orig[ti as int],
                    r.offset.x == r0.offset.x - min.x,
                    r.offset.y == r0.offset.y - min.y,
                    r.typ == r0.typ,
                    r.chest == r0.chest,
                    r.enemy == r0.enemy,
                    r.switch == r0.switch,
                    r.doors@.len() == r0.doors@.len(),
                    dk <= r.doors@.len(),
                    min.x <= 9999,
                    min.y <= 9999,
                    min.x >= -n0,
                    min.y >= -n0,
                    n0 <= MAX_ROOMS,
                    orig.len() == n0,
                    crate::model::room_wf(orig, r0),
                    rooms_wf(orig),
                    coords_bounded(orig, -n0, n0),
                    forall|j: int|
                        0 <= j < n0 ==> min.x <= (#[trigger] orig[j]).offset.x && min.y
                            <= orig[j].offset.y,
                    forall|k: int| dk <= k < r.doors@.len() ==> #[trigger] r.doors@[k]
                        == r0.doors@[k],
                    forall|k: int|
                        0 <= k < dk ==> {
                            &&& (#[trigger] r.doors@[k]).to.x == r0.doors@[k].to.x - min.x
                            &&& r.doors@[k].to.y == r0.doors@[k].to.y - min.y
                            &&& r.doors@[k].side == r0.doors@[k].side
                            &&& r.doors@[k].lock == r0.doors@[k].lock
                            &&& r.doors@[k].triggers == r0.doors@[k].triggers
                        },
                decreases r.doors@.len() - dk,
            {
                proof {
                    assert(crate::model::door_wf(orig, r0.offset, r0.doors@[dk as int]));
                    let j = choose|j: int|
                        0 <= j < orig.len() && orig[j].offset == r0.doors@[dk as int].to;
                    assert(min.x <= orig[j].offset.x && min.y <= orig[j].offset.y);
                }
                let mut d = r.doors.remove(dk);
                d.to = d.to.sub(min);
                r.doors.insert(dk, d);
                dk += 1;
            }
            rooms.insert(ti, r);
            proof {
                assert forall|j: int| 0 <= j < n0 && j != ti implies #[trigger] rooms@[j]
                    == before[j] by {}
                assert(translated_room(orig[ti as int], rooms@[ti as int], min));
            }
            ti += 1;
        }

        proof {
            assert forall|i: int, k: int|
                0 <= i < n0 && 0 <= k < orig[i].doors@.len() implies (
            #[trigger] rooms@[i].doors@[k]).to.x == orig[i].doors@[k].to.x - min.x && (
            #[trigger] rooms@[i].doors@[k]).to.y == orig[i].doors@[k].to.y - min.y by {
                assert(translated_room(orig[i], rooms@[i], min));
            }
            lemma_wf_translate(orig, rooms@, min);
            assert(coords_bounded(rooms@, 0, 2 * MAX_ROOMS as int)) by {
                assert forall|i: int|
                    0 <= i < rooms@.len() implies 0 <= (#[trigger] rooms@[i]).offset.x <= 2
                    * MAX_ROOMS as int && 0 <= rooms@[i].offset.y <= 2 * MAX_ROOMS as int by {
                    assert(translated_room(orig[i], rooms@[i], min));
                    assert(min.x <= orig[i].offset.x && min.y <= orig[i].offset.y);
                }
            }
            assert forall|i: int| 0 <= i < rooms@.len() implies unoccupied(#[trigger] rooms@[i])
                && doors_open(rooms@[i]) && rooms@[i].typ == classify(
                rooms@[i].doors@.len(),
            ) by {
                assert(translated_room(orig[i], rooms@[i], min));
                assert(unoccupied(orig[i]) && doors_open(orig[i]) && orig[i].typ == classify(
                    orig[i].doors@.len(),
                ));
                assert forall|k: int| 0 <= k < rooms@[i].doors@.len() implies (
                #[trigger] rooms@[i].doors@[k]).lock == Lock::Open by {
                    assert(orig[i].doors@[k].lock == Lock::Open);
                }
            }
            // Some room hit the minimum on each axis, so the translated
            // minimum is zero.
            if n0 > 0 {
                let wx = choose|w: int| 0 <= w < n0 && (#[trigger] orig[w]).offset.x == min.x;
                assert(translated_room(orig[wx], rooms@[wx], min));
                assert(rooms@[wx].offset.x == 0);
                let wy = choose|w: int| 0 <= w < n0 && (#[trigger] orig[w]).offset.y == min.y;
                assert(translated_room(orig[wy], rooms@[wy], min));
                assert(rooms@[wy].offset.y == 0);
            }
        }
        self.rooms = rooms;
    }

    /// Sets the classification of room `i`, leaving everything else alone.
    fn mark_room(&mut self, i: usize, t: Type)
        requires
            old(self).wf(),
            i < old(self).rooms@.len(),
        ensures
            final(self).wf(),
            same_shape(old(self).rooms@, final(self).rooms@),
            final(self).rooms@.len() == old(self).rooms@.len(),
            final(self).rooms@[i as int].typ == t,
            final(self).rooms@[i as int].offset == old(self).rooms@[i as int].offset,
            final(self).rooms@[i as int].doors@ == old(self).rooms@[i as int].doors@,
            final(self).rooms@[i as int].chest == old(self).rooms@[i as int].chest,
            final(self).rooms@[i as int].enemy == old(self).rooms@[i as int].enemy,
            final(self).rooms@[i as int].switch == old(self).rooms@[i as int].switch,
            forall|j: int|
                0 <= j < old(self).rooms@.len() && j != i ==> #[trigger] final(self).rooms@[j]
                    == old(self).rooms@[j],
            no_smallkey_locks(old(self).rooms@) ==> no_smallkey_locks(final(self).rooms@),
            final(self).entrance_room == old(self).entrance_room,
            final(self).boss_room == old(self).boss_room,
            final(self).exit_room == old(self).exit_room,
    {
        let ghost pre = self.rooms@;
        let mut r = self.rooms.remove(i);
        r.typ = t;
        self.rooms.insert(i, r);
        proof {
            assert forall|j: int| 0 <= j < pre.len() && j != i implies #[trigger] self.rooms@[j]
                == pre[j] by {}
            assert(self.rooms@[i as int].doors@ == pre[i as int].doors@);
            assert(same_shape(pre, self.rooms@));
            lemma_stage_step(pre, self.rooms@);
            if no_smallkey_locks(pre) {
                assert forall|a: int, k: int|
                    0 <= a < self.rooms@.len() && 0 <= k < self.rooms@[a].doors@.len() implies (
                #[trigger] self.rooms@[a].doors@[k]).lock != Lock::SmallKey by {
                    assert(self.rooms@[a].doors@[k] == pre[a].doors@[k]);
                }
            }
        }
    }

    /// Puts the boss into room `bi`: defeating it opens the exit at
    /// `x_off`, every door of the room becomes trigger-locked, and entering
    /// through a non-exit door locks it behind the player.
    fn place_boss(&mut self, bi: usize, x_off: Offset)
        requires
            old(self).wf(),
            bi < old(self).rooms@.len(),
        ensures
            final(self).wf(),
            same_shape(old(self).rooms@, final(self).rooms@),
            final(self).rooms@.len() == old(self).rooms@.len(),
            final(self).rooms@[bi as int].enemy matches Some(e) && e.typ == EnemyKind::Boss,
            forall|j: int|
                0 <= j < old(self).rooms@.len() && j != bi ==> #[trigger] final(self).rooms@[j]
                    == old(self).rooms@[j],
            forall|k: int|
                0 <= k < old(self).rooms@[bi as int].doors@.len() ==> (#[trigger] final(
                    self).rooms@[bi as int].doors@[k]).lock == Lock::Trigger,
            no_smallkey_locks(old(self).rooms@) ==> no_smallkey_locks(final(self).rooms@),
            final(self).entrance_room == old(self).entrance_room,
            final(self).boss_room == old(self).boss_room,
            final(self).exit_room == old(self).exit_room,
    {
        let ghost pre = self.rooms@;
        let mut br = self.rooms.remove(bi);
        br.enemy = Some(Enemy { typ: EnemyKind::Boss, triggers: vec![Trigger::OpenDoor(x_off)] });
        let ghost br0 = br;
        let ghost bdoors0 = br.doors@;
        let mut dk: usize = 0;
        while dk < br.doors.len()
            invariant
                bdoors0 == br0.doors@,
                br.offset == br0.offset,
                br.typ == br0.typ,
                br.chest == br0.chest,
                br.enemy == br0.enemy,
                br.switch == br0.switch,
                br.doors@.len() == bdoors0.len(),
                dk <= bdoors0.len(),
                forall|j: int| dk <= j < bdoors0.len() ==> #[trigger] br.doors@[j] == bdoors0[j],
                forall|j: int|
                    0 <= j < dk ==> (#[trigger] br.doors@[j]).to == bdoors0[j].to
                        && br.doors@[j].lock == Lock::Trigger,
            decreases bdoors0.len() - dk,
        {
            let to = br.doors[dk].to;
            let mut d = br.doors.remove(dk);
            d.lock = Lock::Trigger;
            if to != x_off {
                d.triggers.push(Trigger::LockDoor(to));
            }
            br.doors.insert(dk, d);
            dk += 1;
        }
        let ghost brv = br;
        self.rooms.insert(bi, br);
        proof {
            assert(self.rooms@[bi as int] == brv);
            assert(brv.offset == pre[bi as int].offset);
            assert(brv.enemy == br0.enemy);
            assert forall|j: int| 0 <= j < pre.len() && j != bi implies #[trigger] self.rooms@[j]
                == pre[j] by {}
            assert(bdoors0 == pre[bi as int].doors@);
            assert forall|k: int|
                0 <= k < pre[bi as int].doors@.len() implies (
            #[trigger] self.rooms@[bi as int].doors@[k]).to == pre[bi as int].doors@[k].to && (
            self.rooms@[bi as int].doors@[k]).lock == Lock::Trigger by {
                assert(brv.doors@[k].to == bdoors0[k].to && brv.doors@[k].lock == Lock::Trigger);
            }
            assert(same_shape(pre, self.rooms@));
            lemma_stage_step(pre, self.rooms@);
            if no_smallkey_locks(pre) {
                assert forall|a: int, k: int|
                    0 <= a < self.rooms@.len() && 0 <= k < self.rooms@[a].doors@.len() implies (
                #[trigger] self.rooms@[a].doors@[k]).lock != Lock::SmallKey by {
                    if a == bi {
                        assert(self.rooms@[a].doors@[k].lock == Lock::Trigger);
                    } else {
                        assert(self.rooms@[a].doors@[k] == pre[a].doors@[k]);
                    }
                }
            }
        }
    }

    /// Sets the lock of door `dkb` of room `pi`.
    fn lock_room_door(&mut self, pi: usize, dkb: usize, lock: Lock)
        requires
            old(self).wf(),
            pi < old(self).rooms@.len(),
            dkb < old(self).rooms@[pi as int].doors@.len(),
        ensures
            final(self).wf(),
            same_shape(old(self).rooms@, final(self).rooms@),
            final(self).rooms@.len() == old(self).rooms@.len(),
            forall|j: int|
                0 <= j < old(self).rooms@.len() && j != pi ==> #[trigger] final(self).rooms@[j]
                    == old(self).rooms@[j],
            forall|k: int|
                0 <= k < old(self).rooms@[pi as int].doors@.len() && k != dkb ==> #[trigger] final(
                    self).rooms@[pi as int].doors@[k] == old(self).rooms@[pi as int].doors@[k],
            final(self).rooms@[pi as int].doors@[dkb as int].lock == lock,
            final(self).rooms@[pi as int].doors@[dkb as int].to == old(
                self).rooms@[pi as int].doors@[dkb as int].to,
            final(self).rooms@[pi as int].doors@[dkb as int].side == old(
                self).rooms@[pi as int].doors@[dkb as int].side,
            final(self).rooms@[pi as int].doors@[dkb as int].triggers == old(
                self).rooms@[pi as int].doors@[dkb as int].triggers,
            final(self).rooms@[pi as int].offset == old(self).rooms@[pi as int].offset,
            final(self).rooms@[pi as int].typ == old(self).rooms@[pi as int].typ,
            final(self).rooms@[pi as int].chest == old(self).rooms@[pi as int].chest,
            final(self).rooms@[pi as int].enemy == old(self).rooms@[pi as int].enemy,
            final(self).rooms@[pi as int].switch == old(self).rooms@[pi as int].switch,
            final(self).rooms@[pi as int].doors@.len() == old(
                self).rooms@[pi as int].doors@.len(),
            final(self).entrance_room == old(self).entrance_room,
            final(self).boss_room == old(self).boss_room,
            final(self).exit_room == old(self).exit_room,
    {
        let ghost pre = self.rooms@;
        let mut pr = self.rooms.remove(pi);
        let mut pd = pr.doors.remove(dkb);
        pd.lock = lock;
        pr.doors.insert(dkb, pd);
        self.rooms.insert(pi, pr);
        proof {
            assert forall|j: int| 0 <= j < pre.len() && j != pi implies #[trigger] self.rooms@[j]
                == pre[j] by {}
            assert forall|k: int|
                0 <= k < pre[pi as int].doors@.len() implies (
            #[trigger] self.rooms@[pi as int].doors@[k]).to == pre[pi as int].doors@[k].to by {
                if k != dkb {
                    assert(self.rooms@[pi as int].doors@[k] == pre[pi as int].doors@[k]);
                }
            }
            assert(same_shape(pre, self.rooms@));
            lemma_stage_step(pre, self.rooms@);
        }
    }

    /// Puts a chest with the given item into room `ki`.
    fn place_chest(&mut self, ki: usize, item: Item)
        requires
            old(self).wf(),
            ki < old(self).rooms@.len(),
        ensures
            final(self).wf(),
            same_shape(old(self).rooms@, final(self).rooms@),
            final(self).rooms@.len() == old(self).rooms@.len(),
            final(self).rooms@[ki as int].chest matches Some(c) && c.item == item,
            final(self).rooms@[ki as int].doors@ == old(self).rooms@[ki as int].doors@,
            final(self).rooms@[ki as int].offset == old(self).rooms@[ki as int].offset,
            final(self).rooms@[ki as int].typ == old(self).rooms@[ki as int].typ,
            final(self).rooms@[ki as int].enemy == old(self).rooms@[ki as int].enemy,
            final(self).rooms@[ki as int].switch == old(self).rooms@[ki as int].switch,
            forall|j: int|
                0 <= j < old(self).rooms@.len() && j != ki ==> #[trigger] final(self).rooms@[j]
                    == old(self).rooms@[j],
            no_smallkey_locks(old(self).rooms@) ==> no_smallkey_locks(final(self).rooms@),
            final(self).entrance_room == old(self).entrance_room,
            final(self).boss_room == old(self).boss_room,
            final(self).exit_room == old(self).exit_room,
    {
        let ghost pre = self.rooms@;
        let mut r = self.rooms.remove(ki);
        r.chest = Some(Chest { item });
        self.rooms.insert(ki, r);
        proof {
            assert forall|j: int| 0 <= j < pre.len() && j != ki implies #[trigger] self.rooms@[j]
                == pre[j] by {}
            assert(self.rooms@[ki as int].doors@ == pre[ki as int].doors@);
            assert(same_shape(pre, self.rooms@));
            lemma_stage_step(pre, self.rooms@);
            if no_smallkey_locks(pre) {
                assert forall|a: int, k: int|
                    0 <= a < self.rooms@.len() && 0 <= k < self.rooms@[a].doors@.len() implies (
                #[trigger] self.rooms@[a].doors@[k]).lock != Lock::SmallKey by {
                    assert(self.rooms@[a].doors@[k] == pre[a].doors@[k]);
                }
            }
        }
    }

    /// Ranks the end-room arms longest first, lets the seeded shuffle decide
    /// which of the three longest becomes the entrance arm, the exit arm,
    /// and the boss-key arm, then assigns the special rooms: the entrance at
    /// the far end of its arm; the exit at the far end of the exit arm with
    /// the boss room immediately in front of it, its doors trigger-locked;
    /// the boss-key lock on the door guarding the boss room; and the boss
    /// key in a chest at the far end of the third arm.
    ///
    /// Fails when fewer than three usable arms exist, when the exit arm
    /// cannot host both exit and boss, or when the boss room would be a
    /// junction; a failure aborts the attempt, not the process.
    fn set_special_rooms(&mut self, rng: &mut StdRng) -> (b: bool)
        requires
            old(self).wf(),
            classified(old(self).rooms@),
            forall|i: int|
                0 <= i < old(self).rooms@.len() ==> doors_open(#[trigger] old(self).rooms@[i]),
        ensures
            final(self).wf(),
            final(self).rooms@.len() == old(self).rooms@.len(),
            no_smallkey_locks(final(self).rooms@),
            b ==> final(self).rooms@.len() >= 3,
            b ==> final(self).entrance_room is Some,
            b ==> final(self).exit_room is Some,
            b ==> final(self).boss_room is Some,
            b ==> (final(self).boss_room matches Some(bo) && exists|i: int|
                0 <= i < final(self).rooms@.len() && (#[trigger] final(self).rooms@[i]).offset
                    == bo && (final(self).rooms@[i].enemy matches Some(en) && en.typ
                    == EnemyKind::Boss)),
            b ==> exists|i: int, k: int|
                0 <= i < final(self).rooms@.len() && 0 <= k < final(self).rooms@[i].doors@.len()
                    && (#[trigger] final(self).rooms@[i].doors@[k]).lock == Lock::BossKey,
            b ==> exists|i: int|
                0 <= i < final(self).rooms@.len() && crate::model::holds_boss_key(
                    #[trigger] final(self).rooms@[i],
                ),
    {
        proof {
            assert forall|i: int, k: int|
                0 <= i < self.rooms@.len() && 0 <= k < self.rooms@[i].doors@.len() implies (
            #[trigger] self.rooms@[i].doors@[k]).lock != Lock::SmallKey by {
                assert(doors_open(self.rooms@[i]));
            }
            assert(no_smallkey_locks(self.rooms@));
        }
        let ghost rooms0 = self.rooms@;

        // The arms, one per end room, ranked longest first.
        let mut ends = self.end_room_paths();
        let ghost arms0 = ends@;
        sort_paths_desc(&mut ends);
        let ghost sorted = ends@;

        // A dungeon needs three independent arms: entrance, exit with boss,
        // and boss key.
        if ends.len() < 3 {
            return false;
        }

        // Shuffle the three longest arms, so which arm takes which role is
        // randomised.
        let mut head: Vec<Path> = Vec::new();
        let p0 = ends.remove(0);
        let p1 = ends.remove(0);
        let p2 = ends.remove(0);
        proof {
            assert(p0 == sorted[0] && p1 == sorted[1] && p2 == sorted[2]);
        }
        head.push(p0);
        head.push(p1);
        head.push(p2);
        let ghost head0 = head@;
        shuffle(rng, &mut head);
        proof {
            assert(head0[0] == sorted[0] && head0[1] == sorted[1] && head0[2] == sorted[2]);
            assert forall|j: int| 0 <= j < head@.len() implies arm_ok(
                rooms0,
                #[trigger] head@[j],
            ) by {
                assert(head@.contains(head@[j]));
                lemma_contains_via_multiset(head0, head@, head@[j]);
                let m = choose|m: int| 0 <= m < head0.len() && head0[m] == head@[j];
                assert(sorted.contains(sorted[m]));
                lemma_contains_via_multiset(arms0, sorted, sorted[m]);
                let a = choose|a: int| 0 <= a < arms0.len() && arms0[a] == sorted[m];
                assert(arm_ok(rooms0, arms0[a]));
            }
        }
        // Entrance: the far end of the first arm.
        proof {
            assert(arm_ok(rooms0, head@[0]));
        }
        let e_off = head[0].0[0];
        let ei = match self.room_index(&e_off) {
            Some(i) => i,
            None => {
                proof {
                    assert(false);
                }
                return false;
            },
        };
        self.mark_room(ei, Type::Entrance);
        self.entrance_room = Some(e_off);
        let ghost s1 = self.rooms@;

        // Exit: the far end of the second arm, which must also host the
        // boss room in front of it.
        proof {
            assert(arm_ok(rooms0, head@[1]));
            lemma_path_elements(rooms0, GhostPolicy::AllDoors, head@[1].0@);
        }
        if head[1].0.len() <= 1 {
            return false;
        }
        let x_off = head[1].0[0];
        let xi = match self.room_index(&x_off) {
            Some(i) => i,
            None => {
                proof {
                    lemma_wf_same_shape(rooms0, self.rooms@);
                    assert(false);
                }
                return false;
            },
        };
        self.mark_room(xi, Type::Exit);
        self.exit_room = Some(x_off);
        proof {
            lemma_same_shape_trans(rooms0, s1, self.rooms@);
        }
        let ghost s2 = self.rooms@;

        // The boss room sits immediately in front of the exit, and may not
        // be a junction.
        let b_off = head[1].0[1];
        let bi = match self.room_index(&b_off) {
            Some(i) => i,
            None => {
                proof {
                    lemma_wf_same_shape(rooms0, self.rooms@);
                    assert(false);
                }
                return false;
            },
        };
        if self.rooms[bi].doors.len() > 2 {
            return false;
        }
        proof {
            // The arm ends at a junction; were the arm only two rooms long,
            // the boss room itself would be that junction, which the check
            // above excludes. So the arm holds a third room.
            let i0 = choose|i0: int|
                0 <= i0 < rooms0.len() && (#[trigger] rooms0[i0]).offset == head@[1].0@.last()
                    && rooms0[i0].doors@.len() >= 3;
            if head@[1].0@.len() == 2 {
                assert(head@[1].0@.last() == head@[1].0@[1]);
                assert(rooms0[i0].offset == b_off);
                assert(self.rooms@[bi as int].offset == rooms0[bi as int].offset);
                assert(rooms0[bi as int].offset == b_off);
                assert(i0 == bi);
                assert(self.rooms@[bi as int].doors@.len() == rooms0[i0].doors@.len());
                assert(false);
            }
            assert(head@[1].0@.len() >= 3);
        }
        proof {
            // The first arm ends at a junction, so the graph holds one, and
            // a junction needs at least three rooms.
            assert(exists|i: int|
                0 <= i < rooms0.len() && (#[trigger] rooms0[i]).doors@.len() >= 3) by {
                let i0 = choose|i0: int|
                    0 <= i0 < rooms0.len() && (#[trigger] rooms0[i0]).offset == head@[0].0@.last()
                        && rooms0[i0].doors@.len() >= 3;
                assert(rooms0[i0].doors@.len() >= 3);
            }
            lemma_junction_needs_rooms(rooms0);
            lemma_path_elements(rooms0, GhostPolicy::AllDoors, head@[2].0@);
            lemma_wf_same_shape(rooms0, self.rooms@);
        }
        let before_off = head[1].0[2];
        let k_off = head[2].0[0];
        self.place_boss_suite(bi, b_off, x_off, before_off, k_off)
    }

    /// Installs the boss suite: the boss in room `bi` (at `b_off`, opening
    /// the exit at `x_off` when defeated), the boss-key lock on the door
    /// from `before_off` into the boss room, and the boss key in a chest at
    /// `k_off`.
    fn place_boss_suite(
        &mut self,
        bi: usize,
        b_off: Offset,
        x_off: Offset,
        before_off: Offset,
        k_off: Offset,
    ) -> (b: bool)
        requires
            old(self).wf(),
            no_smallkey_locks(old(self).rooms@),
            bi < old(self).rooms@.len(),
            old(self).rooms@[bi as int].offset == b_off,
            has_room_at(old(self).rooms@, before_off),
            has_room_at(old(self).rooms@, k_off),
        ensures
            final(self).wf(),
            final(self).rooms@.len() == old(self).rooms@.len(),
            no_smallkey_locks(final(self).rooms@),
            final(self).entrance_room == old(self).entrance_room,
            final(self).exit_room == old(self).exit_room,
            b ==> final(self).boss_room == Some(b_off),
            b ==> exists|i: int|
                0 <= i < final(self).rooms@.len() && (#[trigger] final(self).rooms@[i]).offset
                    == b_off && (final(self).rooms@[i].enemy matches Some(en) && en.typ
                    == EnemyKind::Boss),
            b ==> exists|i: int, k: int|
                0 <= i < final(self).rooms@.len() && 0 <= k < final(self).rooms@[i].doors@.len()
                    && (#[trigger] final(self).rooms@[i].doors@[k]).lock == Lock::BossKey,
            b ==> exists|i: int|
                0 <= i < final(self).rooms@.len() && crate::model::holds_boss_key(
                    #[trigger] final(self).rooms@[i],
                ),
    {
        let ghost rooms0 = self.rooms@;

        // The boss: defeating it opens the exit; entering locks the door
        // behind, so the fight cannot be abandoned.
        self.place_boss(bi, x_off);
        self.boss_room = Some(b_off);
        proof {
            assert forall|a: int, k: int|
                0 <= a < self.rooms@.len() && 0 <= k < self.rooms@[a].doors@.len() implies (
            #[trigger] self.rooms@[a].doors@[k]).lock != Lock::SmallKey by {
                if a == bi {
                    assert(self.rooms@[a].doors@[k].lock == Lock::Trigger);
                } else {
                    assert(self.rooms@[a].doors@[k] == rooms0[a].doors@[k]);
                    assert(no_smallkey_locks(rooms0));
                }
            }
            assert(no_smallkey_locks(self.rooms@));
            lemma_wf_same_shape(rooms0, self.rooms@);
        }
        let ghost s3 = self.rooms@;

        // The door guarding the boss room takes the boss-key lock.
        let pi = match self.room_index(&before_off) {
            Some(i) => i,
            None => {
                proof {
                    assert(false);
                }
                return false;
            },
        };
        let dkb = match self.rooms[pi].door_to_offset(&b_off) {
            Some(k) => k,
            None => {
                return false;
            },
        };
        let ghost pre_lock = self.rooms@;
        self.lock_room_door(pi, dkb, Lock::BossKey);
        proof {
            lemma_same_shape_trans(rooms0, pre_lock, self.rooms@);
            assert forall|a: int, k: int|
                0 <= a < self.rooms@.len() && 0 <= k < self.rooms@[a].doors@.len() implies (
            #[trigger] self.rooms@[a].doors@[k]).lock != Lock::SmallKey by {
                if a == pi && k == dkb {
                    assert(self.rooms@[a].doors@[k].lock == Lock::BossKey);
                } else {
                    assert(self.rooms@[a].doors@[k] == pre_lock[a].doors@[k]);
                    assert(no_smallkey_locks(pre_lock));
                }
            }
            assert(no_smallkey_locks(self.rooms@));
            lemma_wf_same_shape(rooms0, self.rooms@);
        }
        let ghost s4 = self.rooms@;

        // The boss key waits in a chest at the far end of the third arm.
        let ki = match self.room_index(&k_off) {
            Some(i) => i,
            None => {
                proof {
                    assert(false);
                }
                return false;
            },
        };
        self.place_chest(ki, Item::Key(Key::Boss));
        proof {
            lemma_same_shape_trans(rooms0, s4, self.rooms@);
            // The boss, its guarding lock, and the boss key all survive the
            // later room edits.
            assert(self.rooms@[bi as int].enemy matches Some(en) && en.typ == EnemyKind::Boss) by {
                assert(self.rooms@[bi as int].enemy == s3[bi as int].enemy);
            }
            assert(self.rooms@[bi as int].offset == b_off);
            assert(dkb < self.rooms@[pi as int].doors@.len());
            assert(self.rooms@[pi as int].doors@[dkb as int].lock == Lock::BossKey);
            assert(crate::model::holds_boss_key(self.rooms@[ki as int]));
        }
        true
    }
}


impl Dungeon {
    /// Distributes a target number of small-key locks over the edges of the
    /// boss-key path, the boss-door path, and their shared prefix, with a
    /// balancing heuristic that feeds longer paths proportionally more
    /// locks. The target is the empty-room count divided by four, plus a
    /// small random increment of at most one; on success, exactly that many
    /// doors carry a small-key lock. Fails when the paths run out of edges
    /// before the target is met, or when a chosen door is already locked.
    fn set_locked_doors(&mut self, rng: &mut StdRng) -> (b: bool)
        requires
            old(self).wf(),
            old(self).entrance_room is Some,
            no_smallkey_locks(old(self).rooms@),
        ensures
            final(self).wf(),
            final(self).rooms@.len() == old(self).rooms@.len(),
            final(self).entrance_room == old(self).entrance_room,
            final(self).boss_room == old(self).boss_room,
            final(self).exit_room == old(self).exit_room,
            b ==> crate::model::empty_room_count(old(self).rooms@) / 4
                <= crate::model::smallkey_door_count(final(self).rooms@)
                <= crate::model::empty_room_count(old(self).rooms@) / 4 + 1,
            crate::model::only_small_locks_added(old(self).rooms@, final(self).rooms@),
            b ==> (old(self).entrance_room matches Some(e) && exists|bk: Seq<Offset>,
                bd: Seq<Offset>|
                crate::model::small_locks_on_paths(
                    old(self).rooms@,
                    final(self).rooms@,
                    e,
                    bk,
                    bd,
                )),
            (old(self).entrance_room matches Some(e) && (exists|i: int|
                0 <= i < old(self).rooms@.len() && crate::model::holds_boss_key(
                    #[trigger] old(self).rooms@[i],
                ) && reachable(
                    old(self).rooms@,
                    GhostPolicy::AllDoors,
                    e,
                    old(self).rooms@[i].offset,
                )) && (exists|i: int|
                0 <= i < old(self).rooms@.len() && ((#[trigger] old(self).rooms@[i]).enemy
                    matches Some(en) && en.typ == EnemyKind::Boss) && reachable(
                    old(self).rooms@,
                    GhostPolicy::AllDoors,
                    e,
                    old(self).rooms@[i].offset,
                )) && crate::model::empty_room_count(old(self).rooms@) / 4 == 0) ==> b,
    {
        proof {
            crate::model::lemma_no_locks_no_smallkeys(self.rooms@);
            assert(crate::model::only_small_locks_added(self.rooms@, self.rooms@));
        }
        let entrance = match self.entrance_room {
            Some(o) => o,
            None => {
                proof {
                    assert(false);
                }
                return false;
            },
        };

        // The path from the entrance to the boss key, and to the boss room
        // (dropping the boss door itself: it carries the boss-key lock, not
        // a small key).
        let mut boss_key_path = match self.find_room_path(entrance, &RoomQuery::BossKeyChest) {
            Some(p) => p,
            None => {
                return false;
            },
        };
        let ghost bk0 = boss_key_path.0@;
        let mut boss_door_path = match self.find_room_path(entrance, &RoomQuery::BossEnemy) {
            Some(p) => p,
            None => {
                return false;
            },
        };
        let ghost bd0 = boss_door_path.0@;
        boss_door_path.0.pop();
        let ghost bd1 = boss_door_path.0@;
        proof {
            assert(bd1 =~= bd0.take(bd0.len() - 1));
        }

        // The longest shared prefix of the two paths: both walks leave the
        // entrance together until they diverge.
        let mut shared_boss_path = Path::new();
        let limit = if boss_key_path.0.len() < boss_door_path.0.len() {
            boss_key_path.0.len()
        } else {
            boss_door_path.0.len()
        };
        let mut i: usize = 0;
        while i < limit && boss_key_path.0[i] == boss_door_path.0[i]
            invariant
                boss_key_path.0@ == bk0,
                boss_door_path.0@ == bd1,
                limit <= bk0.len(),
                limit <= bd1.len(),
                i <= limit,
                shared_boss_path.0@ == bk0.take(i as int),
            decreases limit - i,
        {
            shared_boss_path.0.push(boss_key_path.0[i]);
            proof {
                assert(shared_boss_path.0@ =~= bk0.take(i + 1));
            }
            i += 1;
        }

        // Drop the shared prefix from both paths, keeping one overlapping
        // edge. (A shared prefix shorter than two rooms leaves nothing to
        // drop.)
        let shared_len = shared_boss_path.0.len();
        if shared_len >= 2 {
            let mut t: usize = 0;
            while t < shared_len - 2
                invariant
                    shared_len >= 2,
                    t <= shared_len - 2,
                    shared_len <= limit,
                    limit <= bk0.len(),
                    limit <= bd1.len(),
                    boss_key_path.0@ == bk0.skip(t as int),
                    boss_door_path.0@ == bd1.skip(t as int),
                decreases shared_len - 2 - t,
            {
                proof {
                    assert(boss_key_path.0@.len() == bk0.len() - t);
                    assert(boss_door_path.0@.len() == bd1.len() - t);
                }
                boss_key_path.0.remove(0);
                boss_door_path.0.remove(0);
                proof {
                    assert(boss_key_path.0@ =~= bk0.skip(t + 1));
                    assert(boss_door_path.0@ =~= bd1.skip(t + 1));
                }
                t += 1;
            }
        }

        // The target number of locked doors.
        let empty_count = self.empty_rooms().len();
        let door_count = empty_count / 4 + gen_range_usize(rng, 0, 1);

        // The three paths as edge lists, longest first. Every edge of every
        // list is a forward edge of one of the two original walks.
        proof {
            assert forall|e: (Offset, Offset)|
                crate::model::is_edge_of(shared_boss_path.0@, e) || crate::model::is_edge_of(
                    boss_key_path.0@,
                    e,
                ) implies crate::model::is_edge_of(bk0, e) by {
                if crate::model::is_edge_of(shared_boss_path.0@, e) {
                    let w = choose|w: int|
                        0 <= w < shared_boss_path.0@.len() - 1 && (
                        #[trigger] shared_boss_path.0@[w]) == e.0 && shared_boss_path.0@[w + 1]
                            == e.1;
                    assert(bk0[w] == e.0 && bk0[w + 1] == e.1);
                } else {
                    let w = choose|w: int|
                        0 <= w < boss_key_path.0@.len() - 1 && (#[trigger] boss_key_path.0@[w])
                            == e.0 && boss_key_path.0@[w + 1] == e.1;
                    let d = bk0.len() - boss_key_path.0@.len();
                    assert(bk0[w + d] == e.0 && bk0[w + d + 1] == e.1);
                }
            }
            assert forall|e: (Offset, Offset)|
                crate::model::is_edge_of(boss_door_path.0@, e) implies crate::model::is_edge_of(
                bd0,
                e,
            ) by {
                let w = choose|w: int|
                    0 <= w < boss_door_path.0@.len() - 1 && (#[trigger] boss_door_path.0@[w])
                        == e.0 && boss_door_path.0@[w + 1] == e.1;
                let d = bd1.len() - boss_door_path.0@.len();
                assert(bd1[w + d] == e.0 && bd1[w + d + 1] == e.1);
                assert(bd0[w + d] == e.0 && bd0[w + d + 1] == e.1);
            }
        }
        let mut paths: Vec<ConnectedPath> = Vec::new();
        let ghost sp = shared_boss_path.0@;
        let ghost kp = boss_key_path.0@;
        let ghost dp = boss_door_path.0@;
        paths.push(shared_boss_path.into_connected_path());
        paths.push(boss_key_path.into_connected_path());
        paths.push(boss_door_path.into_connected_path());
        proof {
            assert forall|pi: int, ei: int|
                0 <= pi < paths@.len() && 0 <= ei < paths@[pi]@.len() implies crate::model::is_edge_of(
                bk0,
                #[trigger] paths@[pi]@[ei],
            ) || crate::model::is_edge_of(bd0, paths@[pi]@[ei]) by {
                if pi == 0 {
                    assert(paths@[pi]@[ei] == (sp[ei], sp[ei + 1]));
                    assert(crate::model::is_edge_of(sp, paths@[pi]@[ei]));
                } else if pi == 1 {
                    assert(paths@[pi]@[ei] == (kp[ei], kp[ei + 1]));
                    assert(crate::model::is_edge_of(kp, paths@[pi]@[ei]));
                } else {
                    assert(paths@[pi]@[ei] == (dp[ei], dp[ei + 1]));
                    assert(crate::model::is_edge_of(dp, paths@[pi]@[ei]));
                }
            }
        }
        let ghost pre_sort_paths = paths@;
        sort_edges_desc(&mut paths);
        proof {
            assert forall|pi: int, ei: int|
                0 <= pi < paths@.len() && 0 <= ei < paths@[pi]@.len() implies crate::model::is_edge_of(
                bk0,
                #[trigger] paths@[pi]@[ei],
            ) || crate::model::is_edge_of(bd0, paths@[pi]@[ei]) by {
                assert(paths@.contains(paths@[pi]));
                lemma_contains_via_multiset(pre_sort_paths, paths@, paths@[pi]);
                let w = choose|w: int|
                    0 <= w < pre_sort_paths.len() && pre_sort_paths[w] == paths@[pi];
            }
        }

        let mut path_index: usize = 0;
        let mut path_count: usize = paths.len();
        let mut doors_locked: usize = 0;
        let mut doors_on_path: Vec<usize> = vec![0, 0, 0];

        // Round-robin over the paths: lock a random edge of the current
        // path, and move on once the path's edge-to-lock ratio drops, so no
        // single arm absorbs every lock.
        while path_count > 0 && doors_locked < door_count
            invariant
                self.wf(),
                self.rooms@.len() == old(self).rooms@.len(),
                self.entrance_room == old(self).entrance_room,
                self.boss_room == old(self).boss_room,
                self.exit_room == old(self).exit_room,
                path_count == paths@.len(),
                path_count <= 3,
                doors_locked <= door_count,
                path_index <= doors_locked,
                doors_on_path@.len() == 3,
                forall|j: int| 0 <= j < 3 ==> (#[trigger] doors_on_path@[j]) <= doors_locked,
                crate::model::smallkey_door_count(self.rooms@) == doors_locked,
                crate::model::only_small_locks_added(old(self).rooms@, self.rooms@),
                crate::model::empty_room_count(old(self).rooms@) / 4 == 0 ==> door_count == 0,
                old(self).entrance_room matches Some(eo) && eo == entrance,
                crate::model::path_ok(old(self).rooms@, GhostPolicy::AllDoors, bk0),
                bk0.first() == entrance,
                exists|w: int|
                    0 <= w < old(self).rooms@.len() && (#[trigger] old(self).rooms@[w]).offset
                        == bk0.last() && crate::model::holds_boss_key(old(self).rooms@[w]),
                forall|w: Seq<Offset>|
                    #[trigger] crate::search::matching_walk(
                        old(self).rooms@,
                        RoomQuery::BossKeyChest,
                        entrance,
                        w,
                    ) ==> w.len() >= bk0.len(),
                crate::model::path_ok(old(self).rooms@, GhostPolicy::AllDoors, bd0),
                bd0.first() == entrance,
                exists|w: int|
                    0 <= w < old(self).rooms@.len() && (#[trigger] old(self).rooms@[w]).offset
                        == bd0.last() && (old(self).rooms@[w].enemy matches Some(en) && en.typ
                        == EnemyKind::Boss),
                forall|w: Seq<Offset>|
                    #[trigger] crate::search::matching_walk(
                        old(self).rooms@,
                        RoomQuery::BossEnemy,
                        entrance,
                        w,
                    ) ==> w.len() >= bd0.len(),
                forall|pi: int, ei: int|
                    0 <= pi < paths@.len() && 0 <= ei < paths@[pi]@.len()
                        ==> crate::model::is_edge_of(bk0, #[trigger] paths@[pi]@[ei])
                        || crate::model::is_edge_of(bd0, paths@[pi]@[ei]),
                forall|a: int, k2: int|
                    0 <= a < self.rooms@.len() && 0 <= k2 < self.rooms@[a].doors@.len() && (
                    #[trigger] self.rooms@[a].doors@[k2]).lock == Lock::SmallKey
                        ==> crate::model::is_edge_of(
                        bk0,
                        (old(self).rooms@[a].offset, old(self).rooms@[a].doors@[k2].to),
                    ) || crate::model::is_edge_of(
                        bd0,
                        (old(self).rooms@[a].offset, old(self).rooms@[a].doors@[k2].to),
                    ),
            decreases door_count - doors_locked, path_count,
        {
            let idx = path_index % path_count;
            if paths[idx].len() > 1 {
                // Lock the door between a random edge's two rooms.
                let door_index = gen_range_usize(rng, 0, 255) % paths[idx].len();
                let from = paths[idx][door_index].0;
                let to = paths[idx][door_index].1;
                let ri = match self.room_index(&from) {
                    Some(i) => i,
                    None => {
                        return false;
                    },
                };
                let dki = match self.rooms[ri].door_to_offset(&to) {
                    Some(k) => k,
                    None => {
                        return false;
                    },
                };

                // The door found by side must be the edge's own door, and a
                // door must not be locked twice.
                if !(self.rooms[ri].doors[dki].to == to) {
                    return false;
                }
                if !(self.rooms[ri].doors[dki].lock == Lock::Open) {
                    return false;
                }
                let ghost pre = self.rooms@;
                self.lock_room_door(ri, dki, Lock::SmallKey);
                proof {
                    crate::model::lemma_smallkey_count_bump(
                        pre,
                        self.rooms@,
                        ri as int,
                        dki as int,
                    );
                    assert(crate::model::only_small_locks_added(pre, self.rooms@)) by {
                        assert forall|a: int, k2: int|
                            0 <= a < pre.len() && 0 <= k2 < pre[a].doors@.len() implies {
                            &&& (#[trigger] self.rooms@[a].doors@[k2]).to == pre[a].doors@[k2].to
                            &&& self.rooms@[a].doors@[k2].side == pre[a].doors@[k2].side
                            &&& self.rooms@[a].doors@[k2].triggers == pre[a].doors@[k2].triggers
                            &&& (self.rooms@[a].doors@[k2].lock == pre[a].doors@[k2].lock || (
                            pre[a].doors@[k2].lock == Lock::Open && self.rooms@[a].doors@[k2].lock
                                == Lock::SmallKey))
                        } by {
                            if a != ri {
                                assert(self.rooms@[a] == pre[a]);
                            } else if k2 != dki {
                                assert(self.rooms@[a].doors@[k2] == pre[a].doors@[k2]);
                            }
                        }
                    }
                    crate::model::lemma_only_small_locks_trans(
                        old(self).rooms@,
                        pre,
                        self.rooms@,
                    );
                    // The newly locked door is the chosen path edge, so it
                    // stays on the two original walks.
                    assert forall|a: int, k2: int|
                        0 <= a < self.rooms@.len() && 0 <= k2 < self.rooms@[a].doors@.len() && (
                    #[trigger] self.rooms@[a].doors@[k2]).lock == Lock::SmallKey implies
                        crate::model::is_edge_of(
                        bk0,
                        (old(self).rooms@[a].offset, old(self).rooms@[a].doors@[k2].to),
                    ) || crate::model::is_edge_of(
                        bd0,
                        (old(self).rooms@[a].offset, old(self).rooms@[a].doors@[k2].to),
                    ) by {
                        if a == ri && k2 == dki {
                            assert(paths@[idx as int]@[door_index as int] == (from, to));
                            assert(old(self).rooms@[a].offset == pre[a].offset);
                            assert(old(self).rooms@[a].doors@[k2].to == pre[a].doors@[k2].to);
                            assert(pre[a].offset == from && pre[a].doors@[k2].to == to);
                        } else {
                            assert(self.rooms@[a].doors@[k2] == pre[a].doors@[k2]);
                        }
                    }
                }

                let cur = doors_on_path.remove(idx);
                doors_on_path.insert(idx, cur + 1);
                doors_locked += 1;

                // Remove the used edge from the path.
                let ghost paths_pre = paths@;
                let mut p = paths.remove(idx);
                let ghost p_pre = p@;
                p.remove(door_index);
                paths.insert(idx, p);
                proof {
                    assert forall|pi: int, ei: int|
                        0 <= pi < paths@.len() && 0 <= ei < paths@[pi]@.len() implies
                        crate::model::is_edge_of(bk0, #[trigger] paths@[pi]@[ei])
                        || crate::model::is_edge_of(bd0, paths@[pi]@[ei]) by {
                        if pi == idx {
                            let e = paths@[pi]@[ei];
                            assert(e == p_pre[if ei < door_index {
                                ei
                            } else {
                                ei + 1
                            }]);
                            assert(crate::model::is_edge_of(bk0, paths_pre[idx as int]@[if ei
                                < door_index {
                                ei
                            } else {
                                ei + 1
                            }]) || crate::model::is_edge_of(
                                bd0,
                                paths_pre[idx as int]@[if ei < door_index {
                                    ei
                                } else {
                                    ei + 1
                                }],
                            ));
                        } else {
                            assert(paths@[pi] == paths_pre[pi]);
                            assert(crate::model::is_edge_of(bk0, paths_pre[pi]@[ei])
                                || crate::model::is_edge_of(bd0, paths_pre[pi]@[ei]));
                        }
                    }
                }

                // Longer paths should take proportionally more locks: once
                // the ratio of remaining edges to placed locks drops below
                // two, move to the next path.
                let door_ratio = paths[idx].len() / (cur + 1);
                if door_ratio < 2 {
                    path_index += 1;
                }
            }

            // Remove exhausted paths.
            let empty = paths[idx].len() <= 1;
            if empty {
                let _ = paths.remove(path_index % path_count);
                path_count -= 1;
            }
        }

        // The attempt stands only when the full target was met.
        if doors_locked != door_count {
            return false;
        }
        proof {
            assert(crate::model::small_locks_on_paths(
                old(self).rooms@,
                self.rooms@,
                entrance,
                bk0,
                bd0,
            ));
        }
        true
    }
}


impl Dungeon {
    /// Puts a switch into room `ki`.
    fn place_switch(&mut self, ki: usize, sw: Switch)
        requires
            old(self).wf(),
            ki < old(self).rooms@.len(),
        ensures
            final(self).wf(),
            same_shape(old(self).rooms@, final(self).rooms@),
            final(self).rooms@.len() == old(self).rooms@.len(),
            final(self).rooms@[ki as int].switch == Some(sw),
            final(self).rooms@[ki as int].doors@ == old(self).rooms@[ki as int].doors@,
            forall|j: int|
                0 <= j < old(self).rooms@.len() && j != ki ==> #[trigger] final(self).rooms@[j]
                    == old(self).rooms@[j],
            final(self).entrance_room == old(self).entrance_room,
            final(self).boss_room == old(self).boss_room,
            final(self).exit_room == old(self).exit_room,
    {
        let ghost pre = self.rooms@;
        let mut r = self.rooms.remove(ki);
        r.switch = Some(sw);
        self.rooms.insert(ki, r);
        proof {
            assert forall|j: int| 0 <= j < pre.len() && j != ki implies #[trigger] self.rooms@[j]
                == pre[j] by {}
            assert(self.rooms@[ki as int].doors@ == pre[ki as int].doors@);
            assert(same_shape(pre, self.rooms@));
            lemma_stage_step(pre, self.rooms@);
        }
    }

    /// Puts an enemy into room `ki`.
    fn place_enemy(&mut self, ki: usize, en: Enemy)
        requires
            old(self).wf(),
            ki < old(self).rooms@.len(),
        ensures
            final(self).wf(),
            same_shape(old(self).rooms@, final(self).rooms@),
            final(self).rooms@.len() == old(self).rooms@.len(),
            final(self).rooms@[ki as int].enemy == Some(en),
            final(self).rooms@[ki as int].doors@ == old(self).rooms@[ki as int].doors@,
            forall|j: int|
                0 <= j < old(self).rooms@.len() && j != ki ==> #[trigger] final(self).rooms@[j]
                    == old(self).rooms@[j],
            final(self).entrance_room == old(self).entrance_room,
            final(self).boss_room == old(self).boss_room,
            final(self).exit_room == old(self).exit_room,
    {
        let ghost pre = self.rooms@;
        let mut r = self.rooms.remove(ki);
        r.enemy = Some(en);
        self.rooms.insert(ki, r);
        proof {
            assert forall|j: int| 0 <= j < pre.len() && j != ki implies #[trigger] self.rooms@[j]
                == pre[j] by {}
            assert(self.rooms@[ki as int].doors@ == pre[ki as int].doors@);
            assert(same_shape(pre, self.rooms@));
            lemma_stage_step(pre, self.rooms@);
        }
    }

    /// Copies a list of directed door pairs.
    pub(crate) fn copy_pairs(v: &Vec<(Offset, Offset)>) -> (r: Vec<(Offset, Offset)>)
        ensures
            r@ == v@,
    {
        let mut out: Vec<(Offset, Offset)> = Vec::new();
        let mut i: usize = 0;
        while i < v.len()
            invariant
                i <= v@.len(),
                out@ =~= v@.take(i as int),
            decreases v@.len() - i,
        {
            out.push((v[i].0, v[i].1));
            i += 1;
        }
        proof {
            assert(v@.take(v@.len() as int) =~= v@);
        }
        out
    }

    /// For every small-key lock placed, guarantees a reachable key before
    /// the lock is required. Runs a fixed-point loop: find the rooms
    /// reachable from the entrance crossing only open doors and small-key
    /// doors already resolved (always stopping at the boss door); mark the
    /// small-key doors on that region's rim as resolved; and place one
    /// key-bearing occupant per newly resolved door in an empty reachable
    /// room, preferring one dead end per round and pushing rooms close to
    /// earlier keys towards the back. Stops once a round resolves nothing;
    /// fails when a round finds fewer empty rooms than keys to place.
    fn set_locked_keys(&mut self, rng: &mut StdRng) -> (b: bool)
        requires
            old(self).wf(),
            old(self).entrance_room is Some,
            old(self).rooms@.len() <= MAX_ROOMS,
        ensures
            final(self).wf(),
            final(self).rooms@.len() == old(self).rooms@.len(),
            final(self).entrance_room == old(self).entrance_room,
            final(self).boss_room == old(self).boss_room,
            final(self).exit_room == old(self).exit_room,
            b ==> (final(self).entrance_room matches Some(e)
                && crate::model::keys_solvable(final(self).rooms@, e)),
            crate::model::smallkey_door_count(old(self).rooms@) == 0 ==> b,
    {
        proof {
            if crate::model::smallkey_door_count(self.rooms@) == 0 {
                crate::model::lemma_no_smallkeys_from_count(self.rooms@);
            }
        }
        let entrance = match self.entrance_room {
            Some(o) => o,
            None => {
                proof {
                    assert(false);
                }
                return false;
            },
        };

        // The directed small-key doors already resolved, and the rooms that
        // hold the keys placed so far.
        let mut unlocked_doors: Vec<(Offset, Offset)> = Vec::new();
        let mut rooms_with_key: Vec<Offset> = Vec::new();

        // Each round resolves at least one further door or stops, so the
        // rounds are bounded by the number of directed doors; a generous
        // budget makes the bound explicit.
        let budget: usize = 4 * self.rooms.len() + 2;
        let mut round: usize = 0;
        while round < budget
            invariant
                self.wf(),
                self.rooms@.len() == old(self).rooms@.len(),
                self.rooms@.len() <= MAX_ROOMS,
                self.entrance_room == old(self).entrance_room,
                self.boss_room == old(self).boss_room,
                self.exit_room == old(self).exit_room,
                self.entrance_room matches Some(e) && e == entrance,
                round <= budget,
                budget >= 2,
                crate::model::smallkey_door_count(old(self).rooms@) == 0 ==> (round == 0
                    && crate::model::no_smallkey_locks(self.rooms@)),
            decreases budget - round,
        {
            round += 1;

            // The rooms reachable before any unresolved locked door.
            let policy = crate::search::Policy::WithKeys(Self::copy_pairs(&unlocked_doors));
            let rooms_found = self.connected_rooms(entrance, &policy);

            // Mark every small-key door on the rim of the region as
            // resolved; this round must supply their keys.
            let start_len = unlocked_doors.len();
            let mut fi: usize = 0;
            while fi < rooms_found.len()
                invariant
                    self.wf(),
                    unlocked_doors@.len() >= start_len,
                    crate::model::smallkey_door_count(old(self).rooms@) == 0 ==> (
                    crate::model::no_smallkey_locks(self.rooms@) && unlocked_doors@.len()
                        == start_len),
                    fi <= rooms_found@.len(),
                    forall|j: int|
                        0 <= j < rooms_found@.len() ==> has_room_at(
                            self.rooms@,
                            #[trigger] rooms_found@[j],
                        ),
                decreases rooms_found@.len() - fi,
            {
                let offset = rooms_found[fi];
                let ri = match self.room_index(&offset) {
                    Some(i) => i,
                    None => {
                        proof {
                            assert(false);
                        }
                        return false;
                    },
                };
                let mut k: usize = 0;
                while k < self.rooms[ri].doors.len()
                    invariant
                        self.wf(),
                        ri < self.rooms@.len(),
                        unlocked_doors@.len() >= start_len,
                        crate::model::smallkey_door_count(old(self).rooms@) == 0 ==> (
                        crate::model::no_smallkey_locks(self.rooms@) && unlocked_doors@.len()
                            == start_len),
                        k <= self.rooms@[ri as int].doors@.len(),
                    decreases self.rooms@[ri as int].doors@.len() - k,
                {
                    let d_to = self.rooms[ri].doors[k].to;
                    if self.rooms[ri].doors[k].lock == Lock::SmallKey {
                        if !crate::search::contains_pair(&unlocked_doors, &(offset, d_to)) {
                            unlocked_doors.push((offset, d_to));
                        }
                    }
                    k += 1;
                }
                fi += 1;
            }
            let doors_unlocked = unlocked_doors.len() - start_len;

            // The empty rooms of the region: no occupant yet.
            let mut empty_rooms_v: Vec<Offset> = Vec::new();
            let mut ei: usize = 0;
            while ei < rooms_found.len()
                invariant
                    self.wf(),
                    ei <= rooms_found@.len(),
                    forall|j: int|
                        0 <= j < empty_rooms_v@.len() ==> has_room_at(
                            self.rooms@,
                            #[trigger] empty_rooms_v@[j],
                        ),
                    forall|j: int|
                        0 <= j < rooms_found@.len() ==> has_room_at(
                            self.rooms@,
                            #[trigger] rooms_found@[j],
                        ),
                decreases rooms_found@.len() - ei,
            {
                let offset = rooms_found[ei];
                let ri = match self.room_index(&offset) {
                    Some(i) => i,
                    None => {
                        proof {
                            assert(false);
                        }
                        return false;
                    },
                };
                let room = &self.rooms[ri];
                if room.chest.is_none() && room.enemy.is_none() && room.switch.is_none() {
                    empty_rooms_v.push(offset);
                }
                ei += 1;
            }

            // Enough empty rooms must exist to host the required keys.
            if empty_rooms_v.len() < doors_unlocked {
                return false;
            }

            // Randomise the candidate rooms.
            let ghost pre_shuffle = empty_rooms_v@;
            shuffle(rng, &mut empty_rooms_v);
            proof {
                assert forall|j: int| 0 <= j < empty_rooms_v@.len() implies has_room_at(
                    self.rooms@,
                    #[trigger] empty_rooms_v@[j],
                ) by {
                    assert(empty_rooms_v@.contains(empty_rooms_v@[j]));
                    lemma_contains_via_multiset(pre_shuffle, empty_rooms_v@, empty_rooms_v@[j]);
                    let b = choose|b: int|
                        0 <= b < pre_shuffle.len() && pre_shuffle[b] == empty_rooms_v@[j];
                    assert(has_room_at(self.rooms@, pre_shuffle[b]));
                }
            }

            // The shortest-path distance from each candidate to the nearest
            // room that already holds a key.
            let mut key_distances: Vec<(Offset, usize)> = Vec::new();
            let mut di: usize = 0;
            while di < empty_rooms_v.len()
                invariant
                    self.wf(),
                    di <= empty_rooms_v@.len(),
                    key_distances@.len() == di,
                    forall|j: int|
                        0 <= j < empty_rooms_v@.len() ==> has_room_at(
                            self.rooms@,
                            #[trigger] empty_rooms_v@[j],
                        ),
                    forall|j: int|
                        0 <= j < di ==> (#[trigger] key_distances@[j]).0 == empty_rooms_v@[j],
                decreases empty_rooms_v@.len() - di,
            {
                let from = empty_rooms_v[di];
                let mut min_key_distance: usize = 9999;
                let mut wi: usize = 0;
                while wi < rooms_with_key.len()
                    invariant
                        self.wf(),
                        has_room_at(self.rooms@, from),
                        wi <= rooms_with_key@.len(),
                    decreases rooms_with_key@.len() - wi,
                {
                    let query = RoomQuery::AtOffset(rooms_with_key[wi]);
                    match self.find_room_path(from, &query) {
                        Some(p) => {
                            let d = p.0.len() - 1;
                            if d < min_key_distance {
                                min_key_distance = d;
                            }
                        },
                        None => {},
                    }
                    wi += 1;
                }
                key_distances.push((from, min_key_distance));
                di += 1;
            }

            // Order the candidates: dead ends split out, rooms close to an
            // earlier key pushed to the back, and at most one dead end
            // pulled back to the front.
            let mut ends_v: Vec<Offset> = Vec::new();
            let mut others: Vec<Offset> = Vec::new();
            let mut pi: usize = 0;
            while pi < empty_rooms_v.len()
                invariant
                    self.wf(),
                    pi <= empty_rooms_v@.len(),
                    forall|j: int|
                        0 <= j < empty_rooms_v@.len() ==> has_room_at(
                            self.rooms@,
                            #[trigger] empty_rooms_v@[j],
                        ),
                    forall|j: int|
                        0 <= j < ends_v@.len() ==> has_room_at(
                            self.rooms@,
                            #[trigger] ends_v@[j],
                        ),
                    forall|j: int|
                        0 <= j < others@.len() ==> has_room_at(
                            self.rooms@,
                            #[trigger] others@[j],
                        ),
                decreases empty_rooms_v@.len() - pi,
            {
                let offset = empty_rooms_v[pi];
                let ri = match self.room_index(&offset) {
                    Some(i) => i,
                    None => {
                        proof {
                            assert(false);
                        }
                        return false;
                    },
                };
                if self.rooms[ri].typ == Type::End {
                    ends_v.push(offset);
                } else {
                    others.push(offset);
                }
                pi += 1;
            }

            let mut close_to_keys: Vec<Offset> = Vec::new();
            let mut candidates: Vec<Offset> = Vec::new();
            let mut ci: usize = 0;
            while ci < others.len()
                invariant
                    self.wf(),
                    ci <= others@.len(),
                    forall|j: int|
                        0 <= j < others@.len() ==> has_room_at(
                            self.rooms@,
                            #[trigger] others@[j],
                        ),
                    forall|j: int|
                        0 <= j < close_to_keys@.len() ==> has_room_at(
                            self.rooms@,
                            #[trigger] close_to_keys@[j],
                        ),
                    forall|j: int|
                        0 <= j < candidates@.len() ==> has_room_at(
                            self.rooms@,
                            #[trigger] candidates@[j],
                        ),
                decreases others@.len() - ci,
            {
                let offset = others[ci];
                let mut dist: usize = 9999;
                let mut qi: usize = 0;
                while qi < key_distances.len()
                    invariant
                        qi <= key_distances@.len(),
                    decreases key_distances@.len() - qi,
                {
                    if key_distances[qi].0 == offset {
                        dist = key_distances[qi].1;
                    }
                    qi += 1;
                }
                if dist < 2 {
                    close_to_keys.push(offset);
                } else {
                    candidates.push(offset);
                }
                ci += 1;
            }
            candidates.append(&mut close_to_keys);

            // Prefer one dead end per round for a key, leaving other dead
            // ends free for later rounds.
            match ends_v.pop() {
                Some(offset) => {
                    candidates.insert(0, offset);
                },
                None => {},
            }
            proof {
                assert forall|j: int| 0 <= j < candidates@.len() implies has_room_at(
                    self.rooms@,
                    #[trigger] candidates@[j],
                ) by {}
            }

            // The keys cannot outnumber the candidate rooms left after the
            // dead-end preference.
            if doors_unlocked > candidates.len() {
                return false;
            }

            // Place one key-bearing occupant per resolved door: a chest, a
            // switch, or an enemy that drops the key, drawn from a small
            // weighted set.
            let mut key_triggers: Vec<i32> = vec![0, 1, 1, 1, 2, 2, 2, 2];
            let mut i: usize = 0;
            while i < doors_unlocked
                invariant
                    self.wf(),
                    self.rooms@.len() == old(self).rooms@.len(),
                    self.entrance_room == old(self).entrance_room,
                    self.boss_room == old(self).boss_room,
                    self.exit_room == old(self).exit_room,
                    self.entrance_room matches Some(e) && e == entrance,
                    crate::model::smallkey_door_count(old(self).rooms@) == 0 ==> (doors_unlocked
                        == 0 && crate::model::no_smallkey_locks(self.rooms@)),
                    i <= doors_unlocked,
                    doors_unlocked <= candidates@.len(),
                    key_triggers@.len() == 8,
                    forall|j: int| 0 <= j < 8 ==> 0 <= #[trigger] key_triggers@[j] <= 2,
                    forall|j: int|
                        0 <= j < candidates@.len() ==> has_room_at(
                            self.rooms@,
                            #[trigger] candidates@[j],
                        ),
                decreases doors_unlocked - i,
            {
                let offset = candidates[i];
                let ri = match self.room_index(&offset) {
                    Some(w) => w,
                    None => {
                        proof {
                            assert(false);
                        }
                        return false;
                    },
                };

                let ghost kt0 = key_triggers@;
                shuffle(rng, &mut key_triggers);
                proof {
                    broadcast use vstd::seq_lib::group_to_multiset_ensures;

                    assert forall|j: int| 0 <= j < key_triggers@.len() implies 0 <= (
                    #[trigger] key_triggers@[j]) <= 2 by {
                        assert(key_triggers@.contains(key_triggers@[j]));
                        assert(key_triggers@.to_multiset().count(key_triggers@[j]) > 0);
                        assert(kt0.to_multiset().count(key_triggers@[j]) > 0);
                        assert(kt0.contains(key_triggers@[j]));
                    }
                }

                let ghost pre = self.rooms@;
                match key_triggers[0] {
                    0 => {
                        self.place_chest(ri, Item::Key(Key::Small));
                    },
                    1 => {
                        self.place_switch(
                            ri,
                            Switch { triggers: vec![Trigger::Item(Item::Key(Key::Small))] },
                        );
                    },
                    _ => {
                        self.place_enemy(
                            ri,
                            Enemy {
                                typ: EnemyKind::Small,
                                triggers: vec![Trigger::Item(Item::Key(Key::Small))],
                            },
                        );
                    },
                }
                proof {
                    lemma_wf_same_shape(pre, self.rooms@);
                    assert forall|j: int| 0 <= j < candidates@.len() implies has_room_at(
                        self.rooms@,
                        #[trigger] candidates@[j],
                    ) by {
                        assert(has_room_at(pre, candidates@[j]));
                    }
                }
                rooms_with_key.push(offset);
                i += 1;
            }

            // Once a round resolves no further door, every reachable lock
            // has its key; the claim is settled by replaying the pickup.
            if doors_unlocked == 0 {
                return self.check_keys(entrance);
            }
        }
        // The budget covers more rounds than doors exist; reaching it means
        // the attempt is unusable.
        false
    }
}

impl Dungeon {
    /// One generation attempt: build the room graph, assign the special
    /// rooms, place the locks, place the keys, and audit the result. Any
    /// stage may fail; a failure aborts this attempt only. With fewer than
    /// three rooms no arms can be assigned, so tiny targets always fail.
    fn generate(&mut self, rng: &mut StdRng, max_rooms: usize) -> (b: bool)
        requires
            old(self).rooms@.len() == 0,
            old(self).entrance_room is None,
            old(self).boss_room is None,
            old(self).exit_room is None,
            0 < max_rooms <= MAX_ROOMS,
        ensures
            b ==> crate::validate::dungeon_complete(*final(self)),
            max_rooms <= 2 ==> !b,
    {
        self.create_rooms(rng, max_rooms);

        if !self.set_special_rooms(rng) {
            return false;
        }
        if !self.set_locked_doors(rng) {
            return false;
        }
        if !self.set_locked_keys(rng) {
            return false;
        }
        // The stages establish the invariants by construction; the attempt
        // stands only once the audit confirms every one of them.
        self.validate()
    }

    /// The generation entry point: seeds the random source and retries
    /// whole attempts up to `max_tries` times. Returns the first dungeon
    /// that passes the audit, or nothing once the tries are exhausted —
    /// an expected outcome of a randomised constructive algorithm, not a
    /// fault. The result is a deterministic function of the seed, the room
    /// count, and the try bound.
    pub fn from_seed(seed: &[usize], room_count: usize, max_tries: usize) -> (r: Option<Dungeon>)
        requires
            0 < room_count <= MAX_ROOMS,
        ensures
            r matches Some(d) ==> crate::validate::dungeon_complete(d),
            room_count <= 2 ==> r is None,
            max_tries == 0 ==> r is None,
    {
        let mut rng = crate::rng::seed_rng(seed);
        let mut tries: usize = 0;

        while tries < max_tries
            invariant
                0 < room_count <= MAX_ROOMS,
                tries <= max_tries,
            decreases max_tries - tries,
        {
            tries += 1;

            let mut dungeon = Dungeon::new();
            if dungeon.generate(&mut rng, room_count) {
                return Some(dungeon);
            }
        }
        None
    }
}

/// Room `b` is room `a` shifted by `-m`, with sides, locks, triggers,
/// classification, and occupants unchanged.
pub open spec fn translated_room(a: Room, b: Room, m: Offset) -> bool {
    &&& b.offset.x == a.offset.x - m.x
    &&& b.offset.y == a.offset.y - m.y
    &&& b.typ == a.typ
    &&& b.chest == a.chest
    &&& b.enemy == a.enemy
    &&& b.switch == a.switch
    &&& b.doors@.len() == a.doors@.len()
    &&& forall|k: int|
        0 <= k < a.doors@.len() ==> {
            &&& (#[trigger] b.doors@[k]).to.x == a.doors@[k].to.x - m.x
            &&& b.doors@[k].to.y == a.doors@[k].to.y - m.y
            &&& b.doors@[k].side == a.doors@[k].side
            &&& b.doors@[k].lock == a.doors@[k].lock
            &&& b.doors@[k].triggers == a.doors@[k].triggers
        }
}

/// A shape-preserving rewrite of the room list keeps the dungeon's graph
/// well-formed, its coordinates bounded, and its offsets occupied.
proof fn lemma_stage_step(pre: Seq<Room>, post: Seq<Room>)
    requires
        rooms_wf(pre),
        coords_bounded(pre, 0, 2 * MAX_ROOMS as int),
        same_shape(pre, post),
    ensures
        rooms_wf(post),
        coords_bounded(post, 0, 2 * MAX_ROOMS as int),
        forall|o: Offset| has_room_at(pre, o) <==> has_room_at(post, o),
{
    lemma_wf_same_shape(pre, post);
    assert forall|i: int|
        0 <= i < post.len() implies 0 <= (#[trigger] post[i]).offset.x <= 2 * MAX_ROOMS as int && 0
        <= post[i].offset.y <= 2 * MAX_ROOMS as int by {
        assert(post[i].offset == pre[i].offset);
    }
}

} // verus!
