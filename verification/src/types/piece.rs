use vstd::prelude::*;

verus! {

/// Kinds of chess pieces.
#[derive(Copy, Clone, PartialEq, Eq, Structural, Debug)]
pub enum Piece {
    King,
    Queen,
    Rook,
    Bishop,
    Knight,
    Pawn,
}

} // verus!
