//! Rooms: a grid cell with its doors, classification, and occupant.

use vstd::prelude::*;
use vstd::string::StringExecFns;
use crate::base::{Side, Offset};
use crate::door::{Door, Lock};
use crate::entity::{Chest, Enemy, Switch};

verus! {

/// A room's topological classification, derived from its door count, with
/// the entrance and exit overriding the derived kind.
#[derive(Debug, Eq, PartialEq, Copy, Clone, Structural)]
pub enum Type {
    Unmarked,
    Entrance,
    Exit,
    Hallway,
    Intersection,
    Crossing,
    End,
    Invalid,
}

impl Type {
    /// The display name of the classification.
    pub fn to_string(&self) -> (r: String)
        ensures
            r@ == self.spec_name(),
    {
        match *self {
            Type::Unmarked => String::from_str(""),
            Type::Entrance => String::from_str("Entrance"),
            Type::Exit => String::from_str("Exit"),
            Type::Hallway => String::from_str("Hallway"),
            Type::Intersection => String::from_str("Intersection"),
            Type::Crossing => String::from_str("Crossway"),
            Type::End => String::from_str("End"),
            Type::Invalid => String::from_str("Invalid"),
        }
    }

    pub open spec fn spec_name(self) -> Seq<char> {
        match self {
            Type::Unmarked => ""@,
            Type::Entrance => "Entrance"@,
            Type::Exit => "Exit"@,
            Type::Hallway => "Hallway"@,
            Type::Intersection => "Intersection"@,
            Type::Crossing => "Crossway"@,
            Type::End => "End"@,
            Type::Invalid => "Invalid"@,
        }
    }
}

/// A room: its grid offset, its doors, its classification, and at most one
/// occupant among chest, enemy, and switch.
#[derive(Debug, PartialEq, Eq, Clone)]
pub struct Room {
    pub offset: Offset,
    pub doors: Vec<Door>,
    pub typ: Type,
    pub chest: Option<Chest>,
    pub enemy: Option<Enemy>,
    pub switch: Option<Switch>,
}

impl Room {
    /// A fresh, unclassified room at the given coordinates, with no doors
    /// and no occupant.
    pub fn new(x: i32, y: i32) -> (r: Room)
        ensures
            r.offset == (Offset { x, y }),
            r.doors@ =~= Seq::<Door>::empty(),
            r.typ == Type::Invalid,
            r.chest is None,
            r.enemy is None,
            r.switch is None,
    {
        Room {
            offset: Offset { x, y },
            doors: Vec::new(),
            typ: Type::Invalid,
            chest: None,
            enemy: None,
            switch: None,
        }
    }

    /// Adds an open door towards `other`, on the side on which `other` lies.
    /// The caller keeps doors in mirrored pairs by also adding the reverse
    /// door to `other`.
    pub fn add_door_to(&mut self, other: &Room)
        ensures
            final(self).doors@.len() == old(self).doors@.len() + 1,
            final(self).doors@.take(old(self).doors@.len() as int) =~= old(self).doors@,
            final(self).doors@.last().side == Side::spec_between(old(self).offset, other.offset),
            final(self).doors@.last().lock == Lock::Open,
            final(self).doors@.last().to == other.offset,
            final(self).doors@.last().triggers@ =~= Seq::<crate::entity::Trigger>::empty(),
            final(self).offset == old(self).offset,
            final(self).typ == old(self).typ,
            final(self).chest == old(self).chest,
            final(self).enemy == old(self).enemy,
            final(self).switch == old(self).switch,
    {
        let side = Side::from_offsets(&self.offset, &other.offset);
        self.doors.push(Door { side, lock: Lock::Open, to: other.offset, triggers: Vec::new() });
    }

    /// The position of this room's door towards the adjacent offset `to`,
    /// found by the side on which `to` lies, as the first door on that side.
    pub fn door_to_offset(&self, to: &Offset) -> (r: Option<usize>)
        ensures
            match r {
                Some(i) => i < self.doors@.len() && self.doors@[i as int].side
                    == Side::spec_between(self.offset, *to) && forall|j: int|
                    0 <= j < i ==> self.doors@[j].side != Side::spec_between(self.offset, *to),
                None => forall|j: int|
                    0 <= j < self.doors@.len() ==> self.doors@[j].side != Side::spec_between(
                        self.offset,
                        *to,
                    ),
            },
    {
        let side = Side::from_offsets(&self.offset, to);
        let mut i: usize = 0;
        while i < self.doors.len()
            invariant
                i <= self.doors@.len(),
                forall|j: int|
                    0 <= j < i ==> self.doors@[j].side != Side::spec_between(self.offset, *to),
                side == Side::spec_between(self.offset, *to),
            decreases self.doors@.len() - i,
        {
            if self.doors[i].side == side {
                return Some(i);
            }
            i += 1;
        }
        None
    }
}

} // verus!
