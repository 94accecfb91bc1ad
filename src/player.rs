use vstd::prelude::*;

verus! {

/// One of the two sides of the game.
#[derive(Clone, Copy, PartialEq, Eq, Debug, Structural)]
pub enum Player {
    Red,
    Black,
}

impl Player {
    pub open spec fn spec_next(self) -> Player {
        match self {
            Player::Red => Player::Black,
            Player::Black => Player::Red,
        }
    }

    /// The opponent of this player.
    pub fn next(self) -> (r: Player)
        ensures
            r == self.spec_next(),
            r != self,
    {
        match self {
            Player::Red => Player::Black,
            Player::Black => Player::Red,
        }
    }
}

} // verus!
