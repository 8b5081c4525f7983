//! Paths through the room graph, as ordered lists of room offsets.

use vstd::prelude::*;
use crate::base::Offset;

verus! {

/// An ordered sequence of room offsets, from a start room to a destination.
#[derive(Debug, PartialEq, Eq)]
pub struct Path(pub Vec<Offset>);

/// A path rewritten as the list of its edges: consecutive offset pairs.
pub type ConnectedPath = Vec<(Offset, Offset)>;

impl Path {
    /// The empty path.
    pub fn new() -> (r: Path)
        ensures
            r.0@ =~= Seq::<Offset>::empty(),
    {
        Path(Vec::new())
    }

    /// A copy of this path.
    pub fn clone(&self) -> (r: Path)
        ensures
            r.0@ =~= self.0@,
    {
        let mut v: Vec<Offset> = Vec::new();
        let mut i: usize = 0;
        while i < self.0.len()
            invariant
                i <= self.0@.len(),
                v@ =~= self.0@.take(i as int),
            decreases self.0@.len() - i,
        {
            v.push(self.0[i]);
            i += 1;
        }
        proof {
            assert(self.0@.take(self.0@.len() as int) =~= self.0@);
        }
        Path(v)
    }

    /// The edge list of this path: one `(from, to)` pair for each pair of
    /// consecutive offsets, and empty for paths of fewer than two rooms.
    pub fn into_connected_path(self) -> (r: ConnectedPath)
        ensures
            r@.len() == if self.0@.len() > 1 {
                self.0@.len() - 1
            } else {
                0int
            },
            forall|i: int|
                0 <= i < r@.len() ==> r@[i] == (self.0@[i], self.0@[i + 1]),
    {
        let mut connected: ConnectedPath = Vec::new();
        if self.0.len() > 1 {
            let mut i: usize = 0;
            while i < self.0.len() - 1
                invariant
                    self.0@.len() > 1,
                    i <= self.0@.len() - 1,
                    connected@.len() == i,
                    forall|j: int|
                        0 <= j < i ==> connected@[j] == (self.0@[j], self.0@[j + 1]),
                decreases self.0@.len() - 1 - i,
            {
                connected.push((self.0[i], self.0[i + 1]));
                i += 1;
            }
        }
        connected
    }
}

} // verus!
