use vstd::prelude::*;
use crate::types::bitboard::single;
use crate::types::{Bitboard, Side, Square};
use crate::board::masks::{self, knight_target, king_target, pawn_target};
use crate::board::magics::{Sliders, bishop_target, rook_target};

verus! {

/// Squares a pawn of `side` on `idx` attacks.
pub fn pawn(side: Side, idx: Square) -> (r: Bitboard)
    requires
        idx.valid(),
    ensures
        forall|t: int| 0 <= t < 64 ==> #[trigger] r.has(t) == pawn_target(side, idx.idx as int, t),
{
    let m = 1u64 << (idx.idx as u64);
    let b = match side {
        Side::White => masks::pawn_attacks_white(m),
        Side::Black => masks::pawn_attacks_black(m),
    };
    proof {
        assert forall|t: int| 0 <= t < 64 implies #[trigger] crate::types::bitboard::bit(b, t)
            == pawn_target(side, idx.idx as int, t) by {
            masks::lemma_pawn_attacks(idx.idx as int, t);
        }
    }
    Bitboard::from_u64(b)
}

/// Squares a knight on `idx` attacks.
pub fn knight(idx: Square) -> (r: Bitboard)
    requires
        idx.valid(),
    ensures
        forall|t: int| 0 <= t < 64 ==> #[trigger] r.has(t) == knight_target(idx.idx as int, t),
{
    let b = masks::knight_moves(1u64 << (idx.idx as u64));
    proof {
        assert forall|t: int| 0 <= t < 64 implies #[trigger] crate::types::bitboard::bit(b, t)
            == knight_target(idx.idx as int, t) by {
            masks::lemma_knight_moves(idx.idx as int, t);
        }
    }
    Bitboard::from_u64(b)
}

/// Squares a bishop on `idx` attacks with `occupied` blocking, read from
/// the tables.
pub fn bishop(sliders: &Sliders, idx: Square, occupied: Bitboard) -> (r: Bitboard)
    requires
        idx.valid(),
    ensures
        forall|t: int|
            0 <= t < 64 ==> #[trigger] r.has(t) == bishop_target(idx.idx as int, occupied.bitboard, t),
{
    sliders.bishop(idx, occupied)
}

/// Squares a rook on `idx` attacks with `occupied` blocking, read from the
/// tables.
pub fn rook(sliders: &Sliders, idx: Square, occupied: Bitboard) -> (r: Bitboard)
    requires
        idx.valid(),
    ensures
        forall|t: int|
            0 <= t < 64 ==> #[trigger] r.has(t) == rook_target(idx.idx as int, occupied.bitboard, t),
{
    sliders.rook(idx, occupied)
}

/// Squares a king on `idx` attacks.
pub fn king(idx: Square) -> (r: Bitboard)
    requires
        idx.valid(),
    ensures
        forall|t: int| 0 <= t < 64 ==> #[trigger] r.has(t) == king_target(idx.idx as int, t),
{
    let b = masks::king_moves(1u64 << (idx.idx as u64));
    proof {
        assert forall|t: int| 0 <= t < 64 implies #[trigger] crate::types::bitboard::bit(b, t)
            == king_target(idx.idx as int, t) by {
            masks::lemma_king_moves(idx.idx as int, t);
        }
    }
    Bitboard::from_u64(b)
}

} // verus!
