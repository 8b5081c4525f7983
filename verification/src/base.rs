//! Grid model: integer coordinates and the four cardinal sides.

use vstd::prelude::*;

verus! {

/// One of the four cardinal sides of a room, plus a sentinel for "no free
/// adjacent cell", which the walk algorithm uses internally.
#[derive(Debug, Eq, PartialEq, Clone, Copy, Structural)]
pub enum Side {
    North,
    East,
    South,
    West,
    Nowhere,
}

/// An integer grid coordinate. Each room occupies exactly one offset, and
/// doors refer to their neighbouring room by its offset.
#[derive(Debug, PartialEq, Eq, Copy, Clone, Structural)]
pub struct Offset {
    pub x: i32,
    pub y: i32,
}

impl Side {
    /// The four usable sides, in fixed order.
    pub fn get_all() -> (r: Vec<Side>)
        ensures
            r@ =~= seq![Side::North, Side::East, Side::South, Side::West],
    {
        let mut v: Vec<Side> = Vec::new();
        v.push(Side::North);
        v.push(Side::East);
        v.push(Side::South);
        v.push(Side::West);
        v
    }

    /// Decodes a side from its index; the walk draws such indices at random.
    pub fn from_i32(i: i32) -> (r: Side)
        requires
            0 <= i <= 4,
        ensures
            r == Side::spec_from_int(i as int),
    {
        match i {
            0 => Side::North,
            1 => Side::East,
            2 => Side::South,
            3 => Side::West,
            _ => Side::Nowhere,
        }
    }

    /// The side of `a` on which an adjacent offset `b` lies. Ties are broken
    /// in a fixed order: a difference in x wins over one in y, and equal
    /// coordinates fall through to North.
    pub fn from_offsets(a: &Offset, b: &Offset) -> (r: Side)
        ensures
            r == Side::spec_between(*a, *b),
    {
        if a.x < b.x {
            Side::East
        } else if a.x > b.x {
            Side::West
        } else if a.y < b.y {
            Side::South
        } else {
            Side::North
        }
    }

    /// The unit step that moving through this side takes on the grid.
    pub fn to_offset(&self) -> (r: Offset)
        ensures
            r == self.spec_delta(),
    {
        match *self {
            Side::North => Offset { x: 0, y: -1 },
            Side::East => Offset { x: 1, y: 0 },
            Side::South => Offset { x: 0, y: 1 },
            Side::West => Offset { x: -1, y: 0 },
            Side::Nowhere => Offset { x: 0, y: 0 },
        }
    }

    pub open spec fn spec_from_int(i: int) -> Side {
        if i == 0 {
            Side::North
        } else if i == 1 {
            Side::East
        } else if i == 2 {
            Side::South
        } else if i == 3 {
            Side::West
        } else {
            Side::Nowhere
        }
    }

    pub open spec fn spec_between(a: Offset, b: Offset) -> Side {
        if a.x < b.x {
            Side::East
        } else if a.x > b.x {
            Side::West
        } else if a.y < b.y {
            Side::South
        } else {
            Side::North
        }
    }

    pub open spec fn spec_delta(self) -> Offset {
        match self {
            Side::North => Offset { x: 0i32, y: -1i32 },
            Side::East => Offset { x: 1i32, y: 0i32 },
            Side::South => Offset { x: 0i32, y: 1i32 },
            Side::West => Offset { x: -1i32, y: 0i32 },
            Side::Nowhere => Offset { x: 0i32, y: 0i32 },
        }
    }
}

impl Offset {
    /// Componentwise sum; the walk moves by adding a side's unit step.
    pub fn add(self, other: Offset) -> (r: Offset)
        requires
            i32::MIN <= self.x + other.x <= i32::MAX,
            i32::MIN <= self.y + other.y <= i32::MAX,
        ensures
            r.x == self.x + other.x,
            r.y == self.y + other.y,
    {
        Offset { x: self.x + other.x, y: self.y + other.y }
    }

    /// Componentwise difference; normalisation shifts every room by the
    /// minimal corner.
    pub fn sub(self, other: Offset) -> (r: Offset)
        requires
            i32::MIN <= self.x - other.x <= i32::MAX,
            i32::MIN <= self.y - other.y <= i32::MAX,
        ensures
            r.x == self.x - other.x,
            r.y == self.y - other.y,
    {
        Offset { x: self.x - other.x, y: self.y - other.y }
    }

    /// Whether `other` is one of the four grid neighbours of `self`.
    pub open spec fn is_adjacent(self, other: Offset) -> bool {
        (self.x == other.x && (self.y - other.y == 1 || other.y - self.y == 1)) || (self.y
            == other.y && (self.x - other.x == 1 || other.x - self.x == 1))
    }
}

impl Default for Offset {
    /// The origin, where the room walk starts.
    fn default() -> (r: Offset)
        ensures
            r == (Offset { x: 0i32, y: 0i32 }),
    {
        Offset { x: 0, y: 0 }
    }
}

} // verus!
