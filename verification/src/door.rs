//! Doors and their lock states.

use vstd::prelude::*;
use crate::base::{Side, Offset};
use crate::entity::Trigger;

verus! {

/// What a door demands before it can be crossed.
#[derive(Debug, Eq, PartialEq, Copy, Clone, Structural)]
pub enum Lock {
    BossKey,
    SmallKey,
    Trigger,
    Open,
}

impl Lock {
    /// A one-character marker for map rendering.
    pub fn to_char(&self) -> (r: char)
        ensures
            r == self.spec_char(),
    {
        match *self {
            Lock::BossKey => 'B',
            Lock::SmallKey => 'S',
            Lock::Trigger => 'T',
            Lock::Open => ' ',
        }
    }

    pub open spec fn spec_char(self) -> char {
        match self {
            Lock::BossKey => 'B',
            Lock::SmallKey => 'S',
            Lock::Trigger => 'T',
            Lock::Open => ' ',
        }
    }
}

/// A door belongs to exactly one room and names the neighbouring room by its
/// offset. Doors come in mirrored pairs: whenever room A gains a door to
/// room B, room B gains one back, both initially open. The `lock` states are
/// per direction and need not mirror each other.
#[derive(Debug, PartialEq, Eq, Clone)]
pub struct Door {
    pub side: Side,
    pub lock: Lock,
    pub to: Offset,
    pub triggers: Vec<Trigger>,
}

} // verus!
