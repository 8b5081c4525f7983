//! Room occupants and the event values they carry.
//!
//! A room holds at most one occupant: a chest, a switch, or an enemy. Each
//! occupant owns the triggers or items that fire when its guard condition is
//! met (a chest opened, a switch pressed, an enemy defeated).

use vstd::prelude::*;
use crate::base::Offset;

verus! {

/// The kind of key an item grants.
#[derive(Debug, Eq, PartialEq, Copy, Clone, Structural)]
pub enum Key {
    Small,
    Boss,
}

/// What a chest, switch, or enemy may yield.
#[derive(Debug, Eq, PartialEq, Copy, Clone, Structural)]
pub enum Item {
    Key(Key),
    Compass,
    DungeonMap,
}

/// An abstract event fired by an occupant: granting an item, or opening or
/// locking the door at a given offset.
#[derive(Debug, Eq, PartialEq, Copy, Clone, Structural)]
pub enum Trigger {
    Item(Item),
    OpenDoor(Offset),
    LockDoor(Offset),
}

/// A chest holding a single item.
#[derive(Debug, PartialEq, Eq, Clone)]
pub struct Chest {
    pub item: Item,
}

/// A switch firing its triggers when pressed.
#[derive(Debug, PartialEq, Eq, Clone)]
pub struct Switch {
    pub triggers: Vec<Trigger>,
}

/// The weight class of an enemy.
#[derive(Debug, Eq, PartialEq, Copy, Clone, Structural)]
pub enum EnemyKind {
    Small,
    Big,
    Boss,
}

/// An enemy firing its triggers once defeated.
#[derive(Debug, PartialEq, Eq, Clone)]
pub struct Enemy {
    pub typ: EnemyKind,
    pub triggers: Vec<Trigger>,
}

} // verus!
