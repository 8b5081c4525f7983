//! The finished-dungeon audit. A successful attempt must satisfy every
//! invariant of a playable dungeon; the checks of this module confirm them
//! on the built value, and their success proves them.

use vstd::prelude::*;
use crate::base::Offset;
use crate::room::{Room, Type};
use crate::door::Lock;
use crate::entity::{Item, Key, EnemyKind, Trigger};
use crate::dungeon::Dungeon;
use crate::search::Policy;
use crate::base::Side;
use crate::model::{
    GhostPolicy, has_room_at, room_at, reachable, keys_solvable, key_order_ok,
    covers_smallkey_doors, is_smallkey_door, holds_small_key, holds_boss_key, lemma_room_at_index,
    lemma_no_duplicates_push, lemma_reachable_mono, occupants_exclusive, doors_mirrored,
    door_sides_consistent, has_door_back,
};

verus! {

/// Exactly one room is the entrance: the one the dungeon names.
pub open spec fn entrance_ok(d: Dungeon) -> bool {
    d.entrance_room matches Some(e) && forall|i: int|
        0 <= i < d.rooms@.len() ==> (((#[trigger] d.rooms@[i]).typ == Type::Entrance)
            <==> d.rooms@[i].offset == e)
}

/// Exactly one room is the exit: the one the dungeon names.
pub open spec fn exit_ok(d: Dungeon) -> bool {
    d.exit_room matches Some(x) && forall|i: int|
        0 <= i < d.rooms@.len() ==> (((#[trigger] d.rooms@[i]).typ == Type::Exit)
            <==> d.rooms@[i].offset == x)
}

/// The named boss room holds the one and only boss, is no junction, sits
/// immediately in front of the exit, opens the exit when the boss falls,
/// and the door guarding it from the non-exit side carries the boss-key
/// lock.
pub open spec fn boss_ok(d: Dungeon) -> bool {
    d.boss_room matches Some(b) && d.exit_room matches Some(x) && {
        &&& b != x
        &&& has_room_at(d.rooms@, b)
        &&& (room_at(d.rooms@, b).enemy matches Some(en) && en.typ == EnemyKind::Boss
            && en.triggers@.contains(Trigger::OpenDoor(x)))
        &&& room_at(d.rooms@, b).doors@.len() <= 2
        &&& forall|i: int|
            0 <= i < d.rooms@.len() && ((#[trigger] d.rooms@[i]).enemy matches Some(en2)
                && en2.typ == EnemyKind::Boss) ==> d.rooms@[i].offset == b
        &&& exists|k: int|
            0 <= k < room_at(d.rooms@, b).doors@.len() && (#[trigger] room_at(
                d.rooms@,
                b,
            ).doors@[k]).to == x
        &&& exists|i: int, k: int|
            0 <= i < d.rooms@.len() && 0 <= k < d.rooms@[i].doors@.len() && (
            #[trigger] d.rooms@[i].doors@[k]).to == b && d.rooms@[i].doors@[k].lock
                == Lock::BossKey && d.rooms@[i].offset != x
    }
}

/// Every room is reachable from the entrance, ignoring lock state.
pub open spec fn connected_ok(d: Dungeon) -> bool {
    d.entrance_room matches Some(e) && forall|i: int|
        0 <= i < d.rooms@.len() ==> reachable(
            d.rooms@,
            GhostPolicy::AllDoors,
            e,
            (#[trigger] d.rooms@[i]).offset,
        )
}

/// The boss key can be reached from the entrance without ever crossing the
/// boss-key door.
pub open spec fn boss_key_ok(d: Dungeon) -> bool {
    d.entrance_room matches Some(e) && exists|i: int|
        0 <= i < d.rooms@.len() && holds_boss_key(#[trigger] d.rooms@[i]) && reachable(
            d.rooms@,
            GhostPolicy::AvoidBossKey,
            e,
            d.rooms@[i].offset,
        )
}

/// Key pickup in discovery order opens every small-key door before it is
/// needed.
pub open spec fn keys_ok(d: Dungeon) -> bool {
    d.entrance_room matches Some(e) && keys_solvable(d.rooms@, e)
}

/// Everything a successful generation promises of its dungeon.
pub open spec fn dungeon_complete(d: Dungeon) -> bool {
    &&& d.wf()
    &&& occupants_exclusive(d.rooms@)
    &&& doors_mirrored(d.rooms@)
    &&& door_sides_consistent(d.rooms@)
    &&& entrance_ok(d)
    &&& exit_ok(d)
    &&& boss_ok(d)
    &&& connected_ok(d)
    &&& boss_key_ok(d)
    &&& keys_ok(d)
}

impl Dungeon {
    /// Audits the finished dungeon; a passing audit proves every invariant
    /// of a playable dungeon.
    pub fn validate(&self) -> (r: bool)
        requires
            self.wf(),
            self.rooms@.len() <= crate::dungeon::MAX_ROOMS,
        ensures
            r ==> dungeon_complete(*self),
    {
        let e = match self.entrance_room {
            Some(o) => o,
            None => {
                return false;
            },
        };
        if !self.check_structure() {
            return false;
        }
        if !self.check_specials() {
            return false;
        }
        if !self.check_connected(e) {
            return false;
        }
        if !self.check_boss_key(e) {
            return false;
        }
        if !self.check_keys(e) {
            return false;
        }
        true
    }

    /// Confirms the structural invariants of the room graph: at most one
    /// occupant per room, mirrored door pairs, and door sides that name the
    /// side on which their target lies.
    fn check_structure(&self) -> (r: bool)
        requires
            self.wf(),
        ensures
            r ==> occupants_exclusive(self.rooms@) && doors_mirrored(self.rooms@)
                && door_sides_consistent(self.rooms@),
    {
        if !self.check_occupants() {
            return false;
        }
        if !self.check_sides() {
            return false;
        }
        self.check_mirrored()
    }

    /// No room holds more than one occupant.
    fn check_occupants(&self) -> (r: bool)
        requires
            self.wf(),
        ensures
            r ==> occupants_exclusive(self.rooms@),
    {
        let mut i: usize = 0;
        while i < self.rooms.len()
            invariant
                self.wf(),
                i <= self.rooms@.len(),
                forall|j: int|
                    0 <= j < i ==> {
                        &&& !((#[trigger] self.rooms@[j]).chest is Some && self.rooms@[j].enemy
                            is Some)
                        &&& !(self.rooms@[j].chest is Some && self.rooms@[j].switch is Some)
                        &&& !(self.rooms@[j].enemy is Some && self.rooms@[j].switch is Some)
                    },
            decreases self.rooms@.len() - i,
        {
            let room = &self.rooms[i];
            if room.chest.is_some() && room.enemy.is_some() {
                return false;
            }
            if room.chest.is_some() && room.switch.is_some() {
                return false;
            }
            if room.enemy.is_some() && room.switch.is_some() {
                return false;
            }
            i += 1;
        }
        true
    }

    /// Every door's stored side names the side on which its target lies.
    fn check_sides(&self) -> (r: bool)
        requires
            self.wf(),
        ensures
            r ==> door_sides_consistent(self.rooms@),
    {
        let mut i: usize = 0;
        while i < self.rooms.len()
            invariant
                self.wf(),
                i <= self.rooms@.len(),
                forall|j: int, k: int|
                    0 <= j < i && 0 <= k < self.rooms@[j].doors@.len() ==> (
                    #[trigger] self.rooms@[j].doors@[k]).side == Side::spec_between(
                        self.rooms@[j].offset,
                        self.rooms@[j].doors@[k].to,
                    ),
            decreases self.rooms@.len() - i,
        {
            let mut k: usize = 0;
            while k < self.rooms[i].doors.len()
                invariant
                    self.wf(),
                    i < self.rooms@.len(),
                    k <= self.rooms@[i as int].doors@.len(),
                    forall|k2: int|
                        0 <= k2 < k ==> (#[trigger] self.rooms@[i as int].doors@[k2]).side
                            == Side::spec_between(
                            self.rooms@[i as int].offset,
                            self.rooms@[i as int].doors@[k2].to,
                        ),
                decreases self.rooms@[i as int].doors@.len() - k,
            {
                let side = Side::from_offsets(&self.rooms[i].offset, &self.rooms[i].doors[k].to);
                if self.rooms[i].doors[k].side != side {
                    return false;
                }
                k += 1;
            }
            i += 1;
        }
        true
    }

    /// Every door has a mirror: its target room holds a door back.
    fn check_mirrored(&self) -> (r: bool)
        requires
            self.wf(),
        ensures
            r ==> doors_mirrored(self.rooms@),
    {
        let mut i: usize = 0;
        while i < self.rooms.len()
            invariant
                self.wf(),
                i <= self.rooms@.len(),
                forall|j: int, k: int|
                    0 <= j < i && 0 <= k < self.rooms@[j].doors@.len() ==> has_door_back(
                        self.rooms@,
                        (#[trigger] self.rooms@[j].doors@[k]).to,
                        self.rooms@[j].offset,
                    ),
            decreases self.rooms@.len() - i,
        {
            let mut k: usize = 0;
            while k < self.rooms[i].doors.len()
                invariant
                    self.wf(),
                    i < self.rooms@.len(),
                    k <= self.rooms@[i as int].doors@.len(),
                    forall|j: int, k2: int|
                        0 <= j < i && 0 <= k2 < self.rooms@[j].doors@.len() ==> has_door_back(
                            self.rooms@,
                            (#[trigger] self.rooms@[j].doors@[k2]).to,
                            self.rooms@[j].offset,
                        ),
                    forall|k2: int|
                        0 <= k2 < k ==> has_door_back(
                            self.rooms@,
                            (#[trigger] self.rooms@[i as int].doors@[k2]).to,
                            self.rooms@[i as int].offset,
                        ),
                decreases self.rooms@[i as int].doors@.len() - k,
            {
                let to = self.rooms[i].doors[k].to;
                let ti = match self.room_index(&to) {
                    Some(t) => t,
                    None => {
                        proof {
                            assert(crate::model::room_wf(self.rooms@, self.rooms@[i as int]));
                            assert(crate::model::door_wf(
                                self.rooms@,
                                self.rooms@[i as int].offset,
                                self.rooms@[i as int].doors@[k as int],
                            ));
                            assert(false);
                        }
                        return false;
                    },
                };
                let mut back = false;
                let mut k3: usize = 0;
                while k3 < self.rooms[ti].doors.len()
                    invariant
                        self.wf(),
                        i < self.rooms@.len(),
                        ti < self.rooms@.len(),
                        k < self.rooms@[i as int].doors@.len(),
                        self.rooms@[ti as int].offset == self.rooms@[i as int].doors@[k as int].to,
                        k3 <= self.rooms@[ti as int].doors@.len(),
                        back ==> has_door_back(
                            self.rooms@,
                            self.rooms@[i as int].doors@[k as int].to,
                            self.rooms@[i as int].offset,
                        ),
                    decreases self.rooms@[ti as int].doors@.len() - k3,
                {
                    if self.rooms[ti].doors[k3].to == self.rooms[i].offset {
                        back = true;
                        proof {
                            assert(has_door_back(
                                self.rooms@,
                                self.rooms@[i as int].doors@[k as int].to,
                                self.rooms@[i as int].offset,
                            )) by {
                                assert(self.rooms@[ti as int].doors@[k3 as int].to
                                    == self.rooms@[i as int].offset);
                            }
                        }
                    }
                    k3 += 1;
                }
                if !back {
                    return false;
                }
                k += 1;
            }
            i += 1;
        }
        true
    }

    /// Confirms that simulated key pickup, in discovery order, opens every
    /// small-key door of the dungeon: it rebuilds the opening order round by
    /// round, pairing each newly reachable locked door with a fresh key room
    /// already in reach, and finally checks that no locked door was missed.
    pub(crate) fn check_keys(&self, e: Offset) -> (r: bool)
        requires
            self.wf(),
            self.rooms@.len() <= crate::dungeon::MAX_ROOMS,
            self.entrance_room matches Some(o) && o == e,
        ensures
            r ==> keys_ok(*self),
            r ==> crate::model::keys_solvable(self.rooms@, e),
            crate::model::no_smallkey_locks(self.rooms@) ==> r,
    {
        let mut order: Vec<(Offset, Offset)> = Vec::new();
        let mut keyrooms: Vec<Offset> = Vec::new();

        // Each round resolves at least one further door or stops, so the
        // rounds are bounded by the number of directed doors.
        let budget: usize = 4 * self.rooms.len() + 2;
        let mut round: usize = 0;
        while round < budget
            invariant
                self.wf(),
                self.entrance_room matches Some(o) && o == e,
                round <= budget,
                budget >= 2,
                crate::model::no_smallkey_locks(self.rooms@) ==> round == 0,
                key_order_ok(self.rooms@, e, order@, keyrooms@),
            decreases budget - round,
        {
            round += 1;
            let ghost order0 = order@;
            let ghost keyrooms0 = keyrooms@;
            let policy = Policy::WithKeys(Dungeon::copy_pairs(&order));
            let region = self.connected_rooms(e, &policy);

            // The small-key doors on the rim of the region that are not yet
            // in the opening order.
            let mut batch: Vec<(Offset, Offset)> = Vec::new();
            let mut fi: usize = 0;
            while fi < region.len()
                invariant
                    self.wf(),
                    order@ == order0,
                    fi <= region@.len(),
                    forall|j: int|
                        0 <= j < region@.len() ==> has_room_at(self.rooms@, #[trigger] region@[j])
                            && reachable(
                            self.rooms@,
                            GhostPolicy::WithKeys(order0),
                            e,
                            region@[j],
                        ),
                    batch@.no_duplicates(),
                    crate::model::no_smallkey_locks(self.rooms@) ==> batch@.len() == 0,
                    forall|j: int|
                        0 <= j < batch@.len() ==> is_smallkey_door(
                            self.rooms@,
                            #[trigger] batch@[j],
                        ) && reachable(
                            self.rooms@,
                            GhostPolicy::WithKeys(order0),
                            e,
                            batch@[j].0,
                        ) && !order0.contains(batch@[j]),
                decreases region@.len() - fi,
            {
                let offset = region[fi];
                let ri = match self.room_index(&offset) {
                    Some(w) => w,
                    None => {
                        proof {
                            assert(false);
                        }
                        return false;
                    },
                };
                let mut k: usize = 0;
                while k < self.rooms[ri].doors.len()
                    invariant
                        self.wf(),
                        order@ == order0,
                        ri < self.rooms@.len(),
                        self.rooms@[ri as int].offset == offset,
                        reachable(self.rooms@, GhostPolicy::WithKeys(order0), e, offset),
                        k <= self.rooms@[ri as int].doors@.len(),
                        batch@.no_duplicates(),
                        crate::model::no_smallkey_locks(self.rooms@) ==> batch@.len() == 0,
                        forall|j: int|
                            0 <= j < batch@.len() ==> is_smallkey_door(
                                self.rooms@,
                                #[trigger] batch@[j],
                            ) && reachable(
                                self.rooms@,
                                GhostPolicy::WithKeys(order0),
                                e,
                                batch@[j].0,
                            ) && !order0.contains(batch@[j]),
                    decreases self.rooms@[ri as int].doors@.len() - k,
                {
                    let to = self.rooms[ri].doors[k].to;
                    if self.rooms[ri].doors[k].lock == Lock::SmallKey {
                        if !crate::search::contains_pair(&order, &(offset, to))
                            && !crate::search::contains_pair(&batch, &(offset, to)) {
                            proof {
                                assert(is_smallkey_door(self.rooms@, (offset, to)));
                                lemma_no_duplicates_push(batch@, (offset, to));
                            }
                            batch.push((offset, to));
                        }
                    }
                    k += 1;
                }
                fi += 1;
            }

            // Once a round finds no new door, every reachable lock has been
            // resolved; what remains is to confirm that none was missed.
            if batch.len() == 0 {
                return self.check_cover(e, &order, &keyrooms);
            }

            // The key rooms in reach that are not yet funding another door.
            let mut fresh: Vec<Offset> = Vec::new();
            let mut gi: usize = 0;
            while gi < region.len()
                invariant
                    self.wf(),
                    order@ == order0,
                    keyrooms@ == keyrooms0,
                    gi <= region@.len(),
                    forall|j: int|
                        0 <= j < region@.len() ==> has_room_at(self.rooms@, #[trigger] region@[j])
                            && reachable(
                            self.rooms@,
                            GhostPolicy::WithKeys(order0),
                            e,
                            region@[j],
                        ),
                    fresh@.no_duplicates(),
                    forall|j: int|
                        0 <= j < fresh@.len() ==> has_room_at(self.rooms@, #[trigger] fresh@[j])
                            && holds_small_key(room_at(self.rooms@, fresh@[j])) && reachable(
                            self.rooms@,
                            GhostPolicy::WithKeys(order0),
                            e,
                            fresh@[j],
                        ) && !keyrooms0.contains(fresh@[j]),
                decreases region@.len() - gi,
            {
                let offset = region[gi];
                let ri = match self.room_index(&offset) {
                    Some(w) => w,
                    None => {
                        proof {
                            assert(false);
                        }
                        return false;
                    },
                };
                if room_holds_small_key(&self.rooms[ri]) {
                    if !crate::search::contains_offset(&keyrooms, &offset)
                        && !crate::search::contains_offset(&fresh, &offset) {
                        proof {
                            lemma_room_at_index(self.rooms@, ri as int);
                            lemma_no_duplicates_push(fresh@, offset);
                        }
                        fresh.push(offset);
                    }
                }
                gi += 1;
            }

            // Every door of this round needs its own fresh key.
            if fresh.len() < batch.len() {
                return false;
            }

            // Append the round's doors, each funded by one fresh key room.
            let mut t: usize = 0;
            while t < batch.len()
                invariant
                    self.wf(),
                    self.entrance_room matches Some(o) && o == e,
                    t <= batch@.len(),
                    batch@.len() <= fresh@.len(),
                    order@ == order0 + batch@.take(t as int),
                    keyrooms@ == keyrooms0 + fresh@.take(t as int),
                    key_order_ok(self.rooms@, e, order@, keyrooms@),
                    batch@.no_duplicates(),
                    fresh@.no_duplicates(),
                    forall|j: int|
                        0 <= j < batch@.len() ==> is_smallkey_door(
                            self.rooms@,
                            #[trigger] batch@[j],
                        ) && reachable(
                            self.rooms@,
                            GhostPolicy::WithKeys(order0),
                            e,
                            batch@[j].0,
                        ) && !order0.contains(batch@[j]),
                    forall|j: int|
                        0 <= j < fresh@.len() ==> has_room_at(self.rooms@, #[trigger] fresh@[j])
                            && holds_small_key(room_at(self.rooms@, fresh@[j])) && reachable(
                            self.rooms@,
                            GhostPolicy::WithKeys(order0),
                            e,
                            fresh@[j],
                        ) && !keyrooms0.contains(fresh@[j]),
                decreases batch@.len() - t,
            {
                proof {
                    lemma_witness_extend(
                        self.rooms@,
                        e,
                        order@,
                        keyrooms@,
                        order0,
                        keyrooms0,
                        batch@,
                        fresh@,
                        t as int,
                    );
                }
                order.push(batch[t]);
                keyrooms.push(fresh[t]);
                t += 1;
            }
        }
        // The budget covers more rounds than doors exist; reaching it means
        // the audit could not settle, and the attempt is discarded.
        false
    }

    /// Confirms that the opening order covers every small-key door of the
    /// dungeon; with the witness known good, that settles solvability.
    fn check_cover(
        &self,
        e: Offset,
        order: &Vec<(Offset, Offset)>,
        keyrooms: &Vec<Offset>,
    ) -> (r: bool)
        requires
            self.wf(),
            self.entrance_room matches Some(o) && o == e,
            key_order_ok(self.rooms@, e, order@, keyrooms@),
        ensures
            r ==> keys_ok(*self),
            crate::model::no_smallkey_locks(self.rooms@) ==> r,
    {
        let mut i: usize = 0;
        while i < self.rooms.len()
            invariant
                self.wf(),
                i <= self.rooms@.len(),
                forall|i2: int, k2: int|
                    0 <= i2 < i && 0 <= k2 < self.rooms@[i2].doors@.len() && (
                    #[trigger] self.rooms@[i2].doors@[k2]).lock == Lock::SmallKey
                        ==> order@.contains(
                        (self.rooms@[i2].offset, self.rooms@[i2].doors@[k2].to),
                    ),
            decreases self.rooms@.len() - i,
        {
            let mut k: usize = 0;
            while k < self.rooms[i].doors.len()
                invariant
                    self.wf(),
                    i < self.rooms@.len(),
                    k <= self.rooms@[i as int].doors@.len(),
                    forall|i2: int, k2: int|
                        0 <= i2 < i && 0 <= k2 < self.rooms@[i2].doors@.len() && (
                        #[trigger] self.rooms@[i2].doors@[k2]).lock == Lock::SmallKey
                            ==> order@.contains(
                            (self.rooms@[i2].offset, self.rooms@[i2].doors@[k2].to),
                        ),
                    forall|k2: int|
                        0 <= k2 < k && (#[trigger] self.rooms@[i as int].doors@[k2]).lock
                            == Lock::SmallKey ==> order@.contains(
                            (self.rooms@[i as int].offset, self.rooms@[i as int].doors@[k2].to),
                        ),
                decreases self.rooms@[i as int].doors@.len() - k,
            {
                if self.rooms[i].doors[k].lock == Lock::SmallKey {
                    let pair = (self.rooms[i].offset, self.rooms[i].doors[k].to);
                    if !crate::search::contains_pair(order, &pair) {
                        return false;
                    }
                }
                k += 1;
            }
            i += 1;
        }
        proof {
            assert(covers_smallkey_doors(self.rooms@, order@));
            assert(keys_solvable(self.rooms@, e));
        }
        true
    }

    /// Confirms the entrance, exit, and boss-room invariants.
    fn check_specials(&self) -> (r: bool)
        requires
            self.wf(),
        ensures
            r ==> entrance_ok(*self) && exit_ok(*self) && boss_ok(*self),
    {
        let e = match self.entrance_room {
            Some(o) => o,
            None => {
                return false;
            },
        };
        let x = match self.exit_room {
            Some(o) => o,
            None => {
                return false;
            },
        };
        let b = match self.boss_room {
            Some(o) => o,
            None => {
                return false;
            },
        };

        // Exactly one entrance and one exit, at the named offsets.
        let mut i: usize = 0;
        while i < self.rooms.len()
            invariant
                self.wf(),
                i <= self.rooms@.len(),
                forall|j: int|
                    0 <= j < i ==> (((#[trigger] self.rooms@[j]).typ == Type::Entrance)
                        <==> self.rooms@[j].offset == e),
                forall|j: int|
                    0 <= j < i ==> (((#[trigger] self.rooms@[j]).typ == Type::Exit)
                        <==> self.rooms@[j].offset == x),
                forall|j: int|
                    0 <= j < i && ((#[trigger] self.rooms@[j]).enemy matches Some(en2) && en2.typ
                        == EnemyKind::Boss) ==> self.rooms@[j].offset == b,
            decreases self.rooms@.len() - i,
        {
            let is_entrance = self.rooms[i].typ == Type::Entrance;
            let at_entrance = self.rooms[i].offset == e;
            if is_entrance != at_entrance {
                return false;
            }
            let is_exit = self.rooms[i].typ == Type::Exit;
            let at_exit = self.rooms[i].offset == x;
            if is_exit != at_exit {
                return false;
            }
            match &self.rooms[i].enemy {
                Some(en) => {
                    if en.typ == EnemyKind::Boss && self.rooms[i].offset != b {
                        return false;
                    }
                },
                None => {},
            }
            i += 1;
        }

        // The boss room: distinct from the exit, held by the boss, and
        // adjacent to the exit.
        if b == x {
            return false;
        }
        let bi = match self.room_index(&b) {
            Some(w) => w,
            None => {
                proof {
                    assert(false);
                }
                return false;
            },
        };
        if self.rooms[bi].doors.len() > 2 {
            return false;
        }
        match &self.rooms[bi].enemy {
            Some(en) => {
                if en.typ != EnemyKind::Boss {
                    return false;
                }
                if !triggers_open_door(&en.triggers, x) {
                    return false;
                }
            },
            None => {
                return false;
            },
        }
        let mut adjacent = false;
        let mut k: usize = 0;
        while k < self.rooms[bi].doors.len()
            invariant
                self.wf(),
                bi < self.rooms@.len(),
                k <= self.rooms@[bi as int].doors@.len(),
                adjacent ==> exists|w: int|
                    0 <= w < self.rooms@[bi as int].doors@.len() && (
                    #[trigger] self.rooms@[bi as int].doors@[w]).to == x,
            decreases self.rooms@[bi as int].doors@.len() - k,
        {
            if self.rooms[bi].doors[k].to == x {
                adjacent = true;
            }
            k += 1;
        }
        if !adjacent {
            return false;
        }

        // Some door from the non-exit side into the boss room carries the
        // boss-key lock.
        let mut guarded = false;
        let mut gi: usize = 0;
        while gi < self.rooms.len()
            invariant
                self.wf(),
                gi <= self.rooms@.len(),
                guarded ==> exists|w: int, k2: int|
                    0 <= w < self.rooms@.len() && 0 <= k2 < self.rooms@[w].doors@.len() && (
                    #[trigger] self.rooms@[w].doors@[k2]).to == b && self.rooms@[w].doors@[k2].lock
                        == Lock::BossKey && self.rooms@[w].offset != x,
            decreases self.rooms@.len() - gi,
        {
            if self.rooms[gi].offset != x {
                let mut gk: usize = 0;
                while gk < self.rooms[gi].doors.len()
                    invariant
                        self.wf(),
                        gi < self.rooms@.len(),
                        self.rooms@[gi as int].offset != x,
                        gk <= self.rooms@[gi as int].doors@.len(),
                        guarded ==> exists|w: int, k2: int|
                            0 <= w < self.rooms@.len() && 0 <= k2 < self.rooms@[w].doors@.len()
                                && (#[trigger] self.rooms@[w].doors@[k2]).to == b
                                && self.rooms@[w].doors@[k2].lock == Lock::BossKey
                                && self.rooms@[w].offset != x,
                    decreases self.rooms@[gi as int].doors@.len() - gk,
                {
                    if self.rooms[gi].doors[gk].to == b && self.rooms[gi].doors[gk].lock
                        == Lock::BossKey {
                        guarded = true;
                    }
                    gk += 1;
                }
            }
            gi += 1;
        }
        if !guarded {
            return false;
        }
        proof {
            lemma_room_at_index(self.rooms@, bi as int);
        }
        true
    }

    /// Decides whether every room is reachable from the entrance ignoring
    /// lock state.
    fn check_connected(&self, e: Offset) -> (r: bool)
        requires
            self.wf(),
            self.entrance_room matches Some(o) && o == e,
        ensures
            r == connected_ok(*self),
    {
        let region = self.connected_rooms(e, &Policy::AllDoors);
        let mut i: usize = 0;
        while i < self.rooms.len()
            invariant
                self.wf(),
                self.entrance_room matches Some(o) && o == e,
                i <= self.rooms@.len(),
                forall|j: int|
                    0 <= j < region@.len() ==> reachable(
                        self.rooms@,
                        GhostPolicy::AllDoors,
                        e,
                        #[trigger] region@[j],
                    ),
                forall|t: Offset|
                    reachable(self.rooms@, GhostPolicy::AllDoors, e, t) ==> region@.contains(t),
                forall|j: int|
                    0 <= j < i ==> reachable(
                        self.rooms@,
                        GhostPolicy::AllDoors,
                        e,
                        (#[trigger] self.rooms@[j]).offset,
                    ),
            decreases self.rooms@.len() - i,
        {
            if !crate::search::contains_offset(&region, &self.rooms[i].offset) {
                proof {
                    // The search is complete, so a missing room is truly
                    // unreachable.
                    assert(!reachable(
                        self.rooms@,
                        GhostPolicy::AllDoors,
                        e,
                        self.rooms@[i as int].offset,
                    ));
                }
                return false;
            }
            proof {
                let w = choose|w: int|
                    0 <= w < region@.len() && region@[w] == self.rooms@[i as int].offset;
            }
            i += 1;
        }
        true
    }

    /// Decides whether the boss key is reachable from the entrance without
    /// crossing the boss-key door.
    fn check_boss_key(&self, e: Offset) -> (r: bool)
        requires
            self.wf(),
            self.entrance_room matches Some(o) && o == e,
        ensures
            r == boss_key_ok(*self),
    {
        let region = self.connected_rooms(e, &Policy::AvoidBossKey);
        let mut gi: usize = 0;
        while gi < region.len()
            invariant
                self.wf(),
                self.entrance_room matches Some(o) && o == e,
                gi <= region@.len(),
                forall|j: int|
                    0 <= j < region@.len() ==> has_room_at(self.rooms@, #[trigger] region@[j])
                        && reachable(self.rooms@, GhostPolicy::AvoidBossKey, e, region@[j]),
                forall|t: Offset|
                    reachable(self.rooms@, GhostPolicy::AvoidBossKey, e, t) ==> region@.contains(
                        t,
                    ),
                forall|j: int|
                    0 <= j < gi ==> !holds_boss_key(room_at(self.rooms@, #[trigger] region@[j])),
            decreases region@.len() - gi,
        {
            let ri = match self.room_index(&region[gi]) {
                Some(w) => w,
                None => {
                    proof {
                        assert(false);
                    }
                    return false;
                },
            };
            proof {
                lemma_room_at_index(self.rooms@, ri as int);
            }
            match &self.rooms[ri].chest {
                Some(c) => {
                    if c.item == Item::Key(Key::Boss) {
                        proof {
                            assert(holds_boss_key(self.rooms@[ri as int]));
                            assert(reachable(
                                self.rooms@,
                                GhostPolicy::AvoidBossKey,
                                e,
                                self.rooms@[ri as int].offset,
                            ));
                        }
                        return true;
                    }
                },
                None => {},
            }
            gi += 1;
        }
        proof {
            // The search is complete, so an unseen key room would have to
            // be unreachable; none holding the boss key was seen.
            assert forall|i: int|
                0 <= i < self.rooms@.len() && holds_boss_key(#[trigger] self.rooms@[i]) implies
                !reachable(
                    self.rooms@,
                    GhostPolicy::AvoidBossKey,
                    e,
                    self.rooms@[i].offset,
                ) by {
                if reachable(self.rooms@, GhostPolicy::AvoidBossKey, e, self.rooms@[i].offset) {
                    assert(region@.contains(self.rooms@[i].offset));
                    let j = choose|j: int|
                        0 <= j < region@.len() && region@[j] == self.rooms@[i].offset;
                    assert(!holds_boss_key(room_at(self.rooms@, region@[j])));
                    lemma_room_at_index(self.rooms@, i);
                    assert(room_at(self.rooms@, region@[j]) == self.rooms@[i]);
                }
            }
        }
        false
    }
}

/// Whether the triggers grant a small key.
fn triggers_grant_small_key(v: &Vec<crate::entity::Trigger>) -> (b: bool)
    ensures
        b == v@.contains(crate::entity::Trigger::Item(Item::Key(Key::Small))),
{
    let mut i: usize = 0;
    while i < v.len()
        invariant
            i <= v@.len(),
            forall|j: int|
                0 <= j < i ==> v@[j] != crate::entity::Trigger::Item(Item::Key(Key::Small)),
        decreases v@.len() - i,
    {
        if v[i] == crate::entity::Trigger::Item(Item::Key(Key::Small)) {
            return true;
        }
        i += 1;
    }
    false
}

/// Whether the triggers open the door at the given offset.
fn triggers_open_door(v: &Vec<Trigger>, at: Offset) -> (b: bool)
    ensures
        b == v@.contains(Trigger::OpenDoor(at)),
{
    let mut i: usize = 0;
    while i < v.len()
        invariant
            i <= v@.len(),
            forall|j: int| 0 <= j < i ==> v@[j] != Trigger::OpenDoor(at),
        decreases v@.len() - i,
    {
        if v[i] == Trigger::OpenDoor(at) {
            return true;
        }
        i += 1;
    }
    false
}

/// Whether the room holds a small key in any occupant form.
fn room_holds_small_key(r: &Room) -> (b: bool)
    ensures
        b == holds_small_key(*r),
{
    match &r.chest {
        Some(c) => {
            if c.item == Item::Key(Key::Small) {
                return true;
            }
        },
        None => {},
    }
    match &r.switch {
        Some(s) => {
            if triggers_grant_small_key(&s.triggers) {
                return true;
            }
        },
        None => {},
    }
    match &r.enemy {
        Some(en) => {
            if triggers_grant_small_key(&en.triggers) {
                return true;
            }
        },
        None => {},
    }
    false
}

/// One step of witness construction: appending door `batch[t]`, funded by
/// key room `fresh[t]`, to a known-good opening order keeps it good. The
/// door and the key are reachable with the doors opened before this round,
/// and reachability only grows as the order grows.
proof fn lemma_witness_extend(
    rooms: Seq<Room>,
    e: Offset,
    order: Seq<(Offset, Offset)>,
    keyrooms: Seq<Offset>,
    order0: Seq<(Offset, Offset)>,
    keyrooms0: Seq<Offset>,
    batch: Seq<(Offset, Offset)>,
    fresh: Seq<Offset>,
    t: int,
)
    requires
        key_order_ok(rooms, e, order, keyrooms),
        0 <= t < batch.len(),
        batch.len() <= fresh.len(),
        order == order0 + batch.take(t),
        keyrooms == keyrooms0 + fresh.take(t),
        batch.no_duplicates(),
        fresh.no_duplicates(),
        forall|j: int|
            0 <= j < batch.len() ==> is_smallkey_door(rooms, #[trigger] batch[j]) && reachable(
                rooms,
                GhostPolicy::WithKeys(order0),
                e,
                batch[j].0,
            ) && !order0.contains(batch[j]),
        forall|j: int|
            0 <= j < fresh.len() ==> has_room_at(rooms, #[trigger] fresh[j]) && holds_small_key(
                room_at(rooms, fresh[j]),
            ) && reachable(rooms, GhostPolicy::WithKeys(order0), e, fresh[j])
                && !keyrooms0.contains(fresh[j]),
    ensures
        key_order_ok(rooms, e, order.push(batch[t]), keyrooms.push(fresh[t])),
        order.push(batch[t]) == order0 + batch.take(t + 1),
        keyrooms.push(fresh[t]) == keyrooms0 + fresh.take(t + 1),
{
    let new_order = order.push(batch[t]);
    let new_keyrooms = keyrooms.push(fresh[t]);
    assert(new_order =~= order0 + batch.take(t + 1));
    assert(new_keyrooms =~= keyrooms0 + fresh.take(t + 1));

    // The appended door and key room are new: neither in the old order nor
    // earlier in this round's batch.
    assert(!order.contains(batch[t])) by {
        if order.contains(batch[t]) {
            let j = choose|j: int| 0 <= j < order.len() && order[j] == batch[t];
            if j < order0.len() {
                assert(order0[j] == batch[t]);
                assert(order0.contains(batch[t]));
            } else {
                assert(order[j] == batch.take(t)[j - order0.len()]);
                assert(batch[j - order0.len()] == batch[t]);
            }
        }
    }
    assert(!keyrooms.contains(fresh[t])) by {
        if keyrooms.contains(fresh[t]) {
            let j = choose|j: int| 0 <= j < keyrooms.len() && keyrooms[j] == fresh[t];
            if j < keyrooms0.len() {
                assert(keyrooms0[j] == fresh[t]);
                assert(keyrooms0.contains(fresh[t]));
            } else {
                assert(keyrooms[j] == fresh.take(t)[j - keyrooms0.len()]);
                assert(fresh[j - keyrooms0.len()] == fresh[t]);
            }
        }
    }
    lemma_no_duplicates_push(order, batch[t]);
    lemma_no_duplicates_push(keyrooms, fresh[t]);

    // The appended door and key are reachable with the doors opened before
    // this round, so also with the whole order before them.
    assert forall|x: (Offset, Offset)| order0.contains(x) implies order.contains(x) by {
        let j = choose|j: int| 0 <= j < order0.len() && order0[j] == x;
        assert(order[j] == x);
    }
    lemma_reachable_mono(rooms, order0, order, e, batch[t].0);
    lemma_reachable_mono(rooms, order0, order, e, fresh[t]);

    assert forall|k: int| 0 <= k < new_order.len() implies is_smallkey_door(
        rooms,
        #[trigger] new_order[k],
    ) && reachable(rooms, GhostPolicy::WithKeys(new_order.take(k)), e, new_order[k].0) by {
        if k < order.len() {
            assert(order[k] == new_order[k]);
            assert(is_smallkey_door(rooms, order[k]));
            assert(reachable(rooms, GhostPolicy::WithKeys(order.take(k)), e, order[k].0));
            assert(new_order.take(k) =~= order.take(k));
        } else {
            assert(new_order[k] == batch[t]);
            assert(new_order.take(k) =~= order);
        }
    }
    assert forall|k: int| 0 <= k < new_keyrooms.len() implies has_room_at(
        rooms,
        #[trigger] new_keyrooms[k],
    ) && holds_small_key(room_at(rooms, new_keyrooms[k])) && reachable(
        rooms,
        GhostPolicy::WithKeys(new_order.take(k)),
        e,
        new_keyrooms[k],
    ) by {
        if k < keyrooms.len() {
            assert(keyrooms[k] == new_keyrooms[k]);
            assert(has_room_at(rooms, keyrooms[k]));
            assert(reachable(rooms, GhostPolicy::WithKeys(order.take(k)), e, keyrooms[k]));
            assert(new_order.take(k) =~= order.take(k));
        } else {
            assert(new_keyrooms[k] == fresh[t]);
            assert(new_order.take(k) =~= order);
        }
    }
}

} // verus!
