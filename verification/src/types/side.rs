use vstd::prelude::*;

verus! {

/// The two players.
#[derive(Copy, Clone, PartialEq, Eq, Structural, Debug)]
pub enum Side {
    White,
    Black,
}

impl Side {
    /// Index of the side in per-side arrays: 0 for white, 1 for black.
    pub open spec fn spec_idx(self) -> int {
        match self {
            Side::White => 0,
            Side::Black => 1,
        }
    }

    /// The other side, as a mathematical function.
    pub open spec fn spec_opponent(self) -> Side {
        match self {
            Side::White => Side::Black,
            Side::Black => Side::White,
        }
    }

    pub fn idx(&self) -> (r: usize)
        ensures
            r == self.spec_idx(),
            r < 2,
    {
        match self {
            Side::White => 0,
            Side::Black => 1,
        }
    }

    pub fn opponent(&self) -> (r: Side)
        ensures
            r == self.spec_opponent(),
    {
        match self {
            Side::White => Side::Black,
            Side::Black => Side::White,
        }
    }

    pub fn is_white(&self) -> (r: bool)
        ensures
            r == (*self == Side::White),
    {
        match self {
            Side::White => true,
            _ => false,
        }
    }

    pub fn is_black(&self) -> (r: bool)
        ensures
            r == (*self == Side::Black),
    {
        !self.is_white()
    }

    /// Picks the first value for white and the second one for black.
    pub fn pick<T>(&self, if_white: T, if_black: T) -> (r: T)
        ensures
            r == (if *self == Side::White { if_white } else { if_black }),
    {
        match self {
            Side::White => if_white,
            Side::Black => if_black,
        }
    }
}

/// Taking the opponent twice gives the side back.
pub proof fn lemma_opponent_involutive(side: Side)
    ensures
        side.spec_opponent().spec_opponent() == side,
        side.spec_opponent() != side,
{
}

} // verus!
