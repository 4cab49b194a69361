//! The levels of the online opponent that a remote game can be played against.
use vstd::prelude::*;

verus! {

/// The level of the remote opponent.
#[derive(Clone, Copy, Debug, PartialEq, Eq, Structural)]
pub enum Difficulty {
    Easy,
    Medium,
    Hard,
}

impl Difficulty {
    /// The index of the level on the remote page: 0, 1 or 2.
    pub fn level(&self) -> (r: usize)
        ensures
            r == match *self {
                Difficulty::Easy => 0usize,
                Difficulty::Medium => 1usize,
                Difficulty::Hard => 2usize,
            },
    {
        match self {
            Difficulty::Easy => 0,
            Difficulty::Medium => 1,
            Difficulty::Hard => 2,
        }
    }
}

} // verus!
