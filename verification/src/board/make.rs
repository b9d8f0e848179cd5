use vstd::prelude::*;
use crate::types::bitboard::{
    bit, single, one_square, sq_of, group_bits, lemma_single, lemma_and_single,
    lemma_single_shift, lemma_single_injective,
};
use crate::types::{Bitboard, Move, Piece, Side};
use crate::board::board::{Board, History};
use crate::board::masks;
use crate::board::masks::back_rank_sq;

verus! {

broadcast use group_bits;

/// A placement of pieces: the piece of side index `s` on square `i`.
pub open spec fn placed(
    f: spec_fn(int, int) -> Option<Piece>,
    s: int,
    i: int,
    v: Option<Piece>,
) -> spec_fn(int, int) -> Option<Piece> {
    |s2: int, i2: int|
        if s2 == s && i2 == i {
            v
        } else {
            f(s2, i2)
        }
}

/// The square of the pawn that a capture en passant by `side` onto
/// `target` takes.
pub open spec fn en_passant_victim(side: Side, target: int) -> int {
    match side {
        Side::White => target - 8,
        Side::Black => target + 8,
    }
}

/// The rank on which the pawns of `side` promote.
pub open spec fn promotion_rank(side: Side) -> int {
    match side {
        Side::White => 7,
        Side::Black => 0,
    }
}

/// The rank on which the pawns of `side` start.
pub open spec fn pawn_rank(side: Side) -> int {
    match side {
        Side::White => 1,
        Side::Black => 6,
    }
}

/// The rank a pawn of `side` reaches with a double push.
pub open spec fn double_push_rank(side: Side) -> int {
    match side {
        Side::White => 3,
        Side::Black => 4,
    }
}

/// The rank of the square that `side` may capture en passant onto.
pub open spec fn en_passant_rank_for(side: Side) -> int {
    match side {
        Side::White => 5,
        Side::Black => 2,
    }
}

/// The square a pawn of `side` passes over with a double push from `from`.
pub open spec fn passed_square(side: Side, from: int) -> int {
    match side {
        Side::White => from + 8,
        Side::Black => from - 8,
    }
}

impl Board {
    /// The placement of the pieces of the board.
    pub open spec fn placement(self) -> spec_fn(int, int) -> Option<Piece> {
        |s: int, i: int| self.pieces[s][i]
    }

    /// The side whose piece stands on the source square of `m`.
    pub open spec fn mover(self, m: Move) -> Side {
        if self.pieces[0][m.from_sq()] is Some {
            Side::White
        } else {
            Side::Black
        }
    }

    /// The piece on the source square of `m`.
    pub open spec fn moved_piece(self, m: Move) -> Piece {
        match self.pieces[self.mover(m).spec_idx()][m.from_sq()] {
            Some(p) => p,
            None => Piece::Pawn,
        }
    }

    /// `m` is a king move onto the kingside castling square with the
    /// kingside castling right.
    pub open spec fn castles_kingside(self, m: Move) -> bool {
        let side = self.mover(m);
        &&& self.moved_piece(m) == Piece::King
        &&& m.to_sq() == back_rank_sq(side, 6)
        &&& self.castle_kingside[side.spec_idx()]
    }

    /// `m` is a king move onto the queenside castling square with the
    /// queenside castling right.
    pub open spec fn castles_queenside(self, m: Move) -> bool {
        let side = self.mover(m);
        &&& self.moved_piece(m) == Piece::King
        &&& m.to_sq() == back_rank_sq(side, 2)
        &&& self.castle_queenside[side.spec_idx()]
    }

    /// `m` moves a pawn onto its promotion rank.
    pub open spec fn promotes(self, m: Move) -> bool {
        &&& self.moved_piece(m) == Piece::Pawn
        &&& m.to_sq() / 8 == promotion_rank(self.mover(m))
    }

    /// The piece that stands on the target square after `m`.
    pub open spec fn placed_piece(self, m: Move) -> Piece {
        if self.promotes(m) {
            m.promotion().piece()
        } else {
            self.moved_piece(m)
        }
    }

    /// `m` is a pawn move onto the en passant square.
    pub open spec fn captures_en_passant(self, m: Move) -> bool {
        &&& self.placed_piece(m) == Piece::Pawn
        &&& self.en_passant.bitboard == single(m.to_sq())
    }

    /// `m` is a double pawn push next to a pawn of the opponent, which
    /// may then capture en passant.
    pub open spec fn pushes_double(self, m: Move) -> bool {
        let side = self.mover(m);
        let o = side.spec_opponent().spec_idx();
        let to = m.to_sq();
        &&& self.placed_piece(m) == Piece::Pawn
        &&& m.from_sq() / 8 == pawn_rank(side)
        &&& to / 8 == double_push_rank(side)
        &&& ((to % 8 > 0 && self.pieces[o][to - 1] == Some(Piece::Pawn)) || (to % 8 < 7
            && self.pieces[o][to + 1] == Some(Piece::Pawn)))
    }

    /// The placement after `m`: a piece on the target square is taken, a
    /// castling rook jumps over the king, a pawn taken en passant leaves,
    /// and the moved (or promoted) piece goes from the source square to the
    /// target square.
    pub open spec fn placement_after(self, m: Move) -> spec_fn(int, int) -> Option<Piece> {
        let side = self.mover(m);
        let s = side.spec_idx();
        let o = side.spec_opponent().spec_idx();
        let from = m.from_sq();
        let to = m.to_sq();
        let f1 = placed(self.placement(), o, to, None);
        let f2 = if self.castles_kingside(m) {
            placed(placed(f1, s, back_rank_sq(side, 7), None), s, back_rank_sq(side, 5), Some(Piece::Rook))
        } else if self.castles_queenside(m) {
            placed(placed(f1, s, back_rank_sq(side, 0), None), s, back_rank_sq(side, 3), Some(Piece::Rook))
        } else {
            f1
        };
        let f3 = if self.captures_en_passant(m) {
            placed(f2, o, en_passant_victim(side, to), None)
        } else {
            f2
        };
        placed(placed(f3, s, to, Some(self.placed_piece(m))), s, from, None)
    }

    /// The kingside castling right of side index `s` after `m`: lost by
    /// moving the king or the kingside rook.
    pub open spec fn kingside_right_after(self, m: Move, s: int) -> bool {
        let side = self.mover(m);
        if s == side.spec_idx() {
            &&& self.castle_kingside[s]
            &&& self.moved_piece(m) != Piece::King
            &&& !(self.moved_piece(m) == Piece::Rook && m.from_sq() == back_rank_sq(side, 7))
        } else {
            self.castle_kingside[s]
        }
    }

    /// The queenside castling right of side index `s` after `m`: lost by
    /// moving the king or the queenside rook.
    pub open spec fn queenside_right_after(self, m: Move, s: int) -> bool {
        let side = self.mover(m);
        if s == side.spec_idx() {
            &&& self.castle_queenside[s]
            &&& self.moved_piece(m) != Piece::King
            &&& !(self.moved_piece(m) == Piece::Rook && m.from_sq() == back_rank_sq(side, 0))
        } else {
            self.castle_queenside[s]
        }
    }

    /// What `m` records on the history: its squares and what it takes
    /// away from the position.
    pub open spec fn history_entry(self, m: Move) -> History {
        History {
            from: Bitboard { bitboard: single(m.from_sq()) },
            to: Bitboard { bitboard: single(m.to_sq()) },
            castle_kingside: self.castle_kingside,
            castle_queenside: self.castle_queenside,
            capture: self.pieces[self.mover(m).spec_opponent().spec_idx()][m.to_sq()],
            half_moves: self.half_moves_clock,
            promotion: self.promotes(m),
            en_passant: self.en_passant,
            hash: self.hash,
        }
    }

    /// The board accepts `m`: a piece stands on its source square, none of
    /// the same side on its target square, a castling king starts from its
    /// square with a rook in the corner and room for it, and a pawn taken
    /// en passant is there.
    pub open spec fn accepts(self, m: Move) -> bool {
        let side = self.mover(m);
        let s = side.spec_idx();
        let o = side.spec_opponent().spec_idx();
        let from = m.from_sq();
        let to = m.to_sq();
        &&& self.wf()
        &&& self.pieces[s][from] is Some
        &&& self.pieces[s][to] is None
        &&& self.castles_kingside(m) ==> {
            &&& from == back_rank_sq(side, 4)
            &&& self.pieces[s][back_rank_sq(side, 7)] == Some(Piece::Rook)
            &&& self.pieces[0][back_rank_sq(side, 5)] is None
            &&& self.pieces[1][back_rank_sq(side, 5)] is None
        }
        &&& self.castles_queenside(m) ==> {
            &&& from == back_rank_sq(side, 4)
            &&& self.pieces[s][back_rank_sq(side, 0)] == Some(Piece::Rook)
            &&& self.pieces[0][back_rank_sq(side, 3)] is None
            &&& self.pieces[1][back_rank_sq(side, 3)] is None
        }
        &&& self.captures_en_passant(m) ==> {
            &&& 0 <= en_passant_victim(side, to) < 64
            &&& self.pieces[o][en_passant_victim(side, to)] == Some(Piece::Pawn)
        }
    }

    /// The board accepts `m` and its clocks can count one more move.
    pub open spec fn can_make(self, m: Move) -> bool {
        &&& self.accepts(m)
        &&& self.half_moves_clock < u32::MAX
        &&& self.mover(m) == Side::Black ==> self.full_moves_count < u32::MAX
    }

    /// `after` is the board with `m` made: the placement of
    /// `placement_after`, the castling rights that `m` leaves, the other
    /// side to move, the clocks moved on, the en passant square of a double
    /// push, the entry of `m` on the history, and the hash of the new
    /// position.
    pub open spec fn makes(self, m: Move, after: Board) -> bool {
        &&& after.wf()
        &&& forall|s: int, i: int|
            0 <= s < 2 && 0 <= i < 64 ==> #[trigger] after.pieces[s][i] == self.placement_after(
                m,
            )(s, i)
        &&& forall|s: int| 0 <= s < 2 ==> #[trigger] after.castle_kingside[s] == self.kingside_right_after(m, s)
        &&& forall|s: int| 0 <= s < 2 ==> #[trigger] after.castle_queenside[s] == self.queenside_right_after(m, s)
        &&& after.current_color == self.mover(m).spec_opponent()
        &&& after.half_moves_clock == (if self.moved_piece(m) == Piece::Pawn || self.history_entry(
            m,
        ).capture is Some {
            0
        } else {
            self.half_moves_clock + 1
        })
        &&& after.full_moves_count == (if self.mover(m) == Side::Black {
            self.full_moves_count + 1
        } else {
            self.full_moves_count as int
        })
        &&& after.en_passant.bitboard == (if self.pushes_double(m) {
            single(passed_square(self.mover(m), m.from_sq()))
        } else {
            0
        })
        &&& after.history@ == self.history@.push(self.history_entry(m))
        &&& after.zobrist == self.zobrist
        &&& after.hash == after.position_hash()
    }

    /// The last entry of the history.
    pub open spec fn last_entry(self) -> History {
        self.history@.last()
    }

    /// The side of the piece on the target square of the last move.
    pub open spec fn unmover(self) -> Side {
        if self.pieces[0][sq_of(self.last_entry().to.bitboard)] is Some {
            Side::White
        } else {
            Side::Black
        }
    }

    /// The last move was castling kingside: the right changed, the king went
    /// from its square to the castling square and stands there.
    pub open spec fn uncastles_kingside(self) -> bool {
        let h = self.last_entry();
        let side = self.unmover();
        let s = side.spec_idx();
        &&& self.castle_kingside[s] != h.castle_kingside[s]
        &&& h.from.bitboard == single(back_rank_sq(side, 4))
        &&& h.to.bitboard == single(back_rank_sq(side, 6))
        &&& self.pieces[s][back_rank_sq(side, 6)] == Some(Piece::King)
    }

    /// The last move was castling queenside.
    pub open spec fn uncastles_queenside(self) -> bool {
        let h = self.last_entry();
        let side = self.unmover();
        let s = side.spec_idx();
        &&& self.castle_queenside[s] != h.castle_queenside[s]
        &&& h.from.bitboard == single(back_rank_sq(side, 4))
        &&& h.to.bitboard == single(back_rank_sq(side, 2))
        &&& self.pieces[s][back_rank_sq(side, 2)] == Some(Piece::King)
    }

    /// The placement with a castling rook put back in its corner.
    pub open spec fn unmake_rooks(self) -> spec_fn(int, int) -> Option<Piece> {
        let side = self.unmover();
        let s = side.spec_idx();
        let f1 = if self.uncastles_kingside() {
            placed(placed(self.placement(), s, back_rank_sq(side, 5), None), s, back_rank_sq(side, 7), Some(Piece::Rook))
        } else {
            self.placement()
        };
        if self.uncastles_queenside() {
            placed(placed(f1, s, back_rank_sq(side, 3), None), s, back_rank_sq(side, 0), Some(Piece::Rook))
        } else {
            f1
        }
    }

    /// The piece that goes back to the source square of the last move: a
    /// pawn after a promotion.
    pub open spec fn unmoved_piece(self) -> Piece {
        let h = self.last_entry();
        if h.promotion {
            Piece::Pawn
        } else {
            match self.pieces[self.unmover().spec_idx()][sq_of(h.to.bitboard)] {
                Some(p) => p,
                None => Piece::Pawn,
            }
        }
    }

    /// The last move took a pawn en passant.
    pub open spec fn restores_en_passant(self) -> bool {
        &&& self.unmoved_piece() == Piece::Pawn
        &&& self.last_entry().en_passant == self.last_entry().to
    }

    /// The placement with a pawn taken en passant put back.
    pub open spec fn unmake_victim(self) -> spec_fn(int, int) -> Option<Piece> {
        let side = self.unmover();
        if self.restores_en_passant() {
            placed(
                self.unmake_rooks(),
                side.spec_opponent().spec_idx(),
                en_passant_victim(side, sq_of(self.last_entry().to.bitboard)),
                Some(Piece::Pawn),
            )
        } else {
            self.unmake_rooks()
        }
    }

    /// The placement with the moved piece lifted from the target square.
    pub open spec fn unmake_lifted(self) -> spec_fn(int, int) -> Option<Piece> {
        placed(
            self.unmake_victim(),
            self.unmover().spec_idx(),
            sq_of(self.last_entry().to.bitboard),
            None,
        )
    }

    /// The placement with the moved piece back on the source square.
    pub open spec fn unmake_returned(self) -> spec_fn(int, int) -> Option<Piece> {
        placed(
            self.unmake_lifted(),
            self.unmover().spec_idx(),
            sq_of(self.last_entry().from.bitboard),
            Some(self.unmoved_piece()),
        )
    }

    /// The placement before the last move: castling rook, pawn taken en
    /// passant, moved piece and taken piece all back.
    pub open spec fn placement_before(self) -> spec_fn(int, int) -> Option<Piece> {
        let h = self.last_entry();
        if h.capture is Some {
            placed(
                self.unmake_returned(),
                self.unmover().spec_opponent().spec_idx(),
                sq_of(h.to.bitboard),
                h.capture,
            )
        } else {
            self.unmake_returned()
        }
    }

    /// The last move can be taken back: the history holds it, a piece
    /// stands on its target square, and every square a piece goes back to
    /// is free.
    pub open spec fn can_unmake(self) -> bool {
        let h = self.last_entry();
        let side = self.unmover();
        let s = side.spec_idx();
        let to = sq_of(h.to.bitboard);
        let from = sq_of(h.from.bitboard);
        &&& self.wf()
        &&& self.history@.len() > 0
        &&& one_square(h.to.bitboard)
        &&& one_square(h.from.bitboard)
        &&& (self.pieces[0][to] is Some || self.pieces[1][to] is Some)
        &&& self.uncastles_kingside() ==> {
            &&& self.pieces[s][back_rank_sq(side, 5)] is Some
            &&& self.pieces[0][back_rank_sq(side, 7)] is None
            &&& self.pieces[1][back_rank_sq(side, 7)] is None
        }
        &&& self.uncastles_queenside() ==> {
            &&& self.pieces[s][back_rank_sq(side, 3)] is Some
            &&& self.pieces[0][back_rank_sq(side, 0)] is None
            &&& self.pieces[1][back_rank_sq(side, 0)] is None
        }
        &&& self.restores_en_passant() ==> {
            let v = en_passant_victim(side, to);
            &&& 0 <= v < 64
            &&& self.unmake_rooks()(0, v) is None
            &&& self.unmake_rooks()(1, v) is None
        }
        &&& self.unmake_victim()(s, to) is Some
        &&& self.unmake_lifted()(0, from) is None
        &&& self.unmake_lifted()(1, from) is None
        &&& h.capture is Some ==> {
            &&& self.unmake_returned()(0, to) is None
            &&& self.unmake_returned()(1, to) is None
        }
        &&& side == Side::Black ==> self.full_moves_count > 0
    }

    /// `after` is the board with the last move taken back: the placement
    /// of `placement_before`, and the rights, clocks, en passant square and
    /// hash that the history kept.
    pub open spec fn unmakes(self, after: Board) -> bool {
        let h = self.last_entry();
        &&& after.wf()
        &&& forall|s: int, i: int|
            0 <= s < 2 && 0 <= i < 64 ==> #[trigger] after.pieces[s][i] == self.placement_before()(
                s,
                i,
            )
        &&& after.castle_kingside == h.castle_kingside
        &&& after.castle_queenside == h.castle_queenside
        &&& after.current_color == self.unmover()
        &&& after.half_moves_clock == h.half_moves
        &&& after.en_passant == h.en_passant
        &&& after.full_moves_count == (if self.unmover() == Side::Black {
            self.full_moves_count - 1
        } else {
            self.full_moves_count as int
        })
        &&& after.hash == h.hash
        &&& after.history@ == self.history@.drop_last()
        &&& after.zobrist == self.zobrist
    }

    /// The en passant square, if any, lies where the side to move could
    /// capture onto it.
    pub open spec fn en_passant_sane(self) -> bool {
        self.en_passant.bitboard == 0 || (one_square(self.en_passant.bitboard) && sq_of(
            self.en_passant.bitboard,
        ) / 8 == en_passant_rank_for(self.current_color))
    }

    /// `after` is the board with the turn passed: the same pieces and
    /// rights, the other side to move, the clocks moved on, no en passant
    /// square, an entry on the history and the hash of the new position.
    pub open spec fn makes_null(self, after: Board) -> bool {
        &&& after.wf()
        &&& forall|s: int, i: int|
            0 <= s < 2 && 0 <= i < 64 ==> #[trigger] after.pieces[s][i] == self.pieces[s][i]
        &&& after.castle_kingside == self.castle_kingside
        &&& after.castle_queenside == self.castle_queenside
        &&& after.current_color == self.current_color.spec_opponent()
        &&& after.half_moves_clock == self.half_moves_clock + 1
        &&& after.full_moves_count == (if self.current_color == Side::Black {
            self.full_moves_count + 1
        } else {
            self.full_moves_count as int
        })
        &&& after.en_passant.bitboard == 0
        &&& after.history@ == self.history@.push(
            History {
                from: Bitboard { bitboard: 0 },
                to: Bitboard { bitboard: 0 },
                castle_kingside: self.castle_kingside,
                castle_queenside: self.castle_queenside,
                capture: None,
                half_moves: self.half_moves_clock,
                promotion: false,
                en_passant: self.en_passant,
                hash: self.hash,
            },
        )
        &&& after.zobrist == self.zobrist
        &&& after.hash == after.position_hash()
    }

    /// `after` is the board with a passed turn taken back: the same
    /// pieces and rights, the other side to move, and the clocks, en
    /// passant square and hash that the history kept.
    pub open spec fn unmakes_null(self, after: Board) -> bool {
        &&& after.wf()
        &&& forall|s: int, i: int|
            0 <= s < 2 && 0 <= i < 64 ==> #[trigger] after.pieces[s][i] == self.pieces[s][i]
        &&& after.castle_kingside == self.castle_kingside
        &&& after.castle_queenside == self.castle_queenside
        &&& after.current_color == self.current_color.spec_opponent()
        &&& after.half_moves_clock == self.last_entry().half_moves
        &&& after.full_moves_count == (if self.current_color == Side::White {
            self.full_moves_count - 1
        } else {
            self.full_moves_count as int
        })
        &&& after.en_passant == self.last_entry().en_passant
        &&& after.hash == self.last_entry().hash
        &&& after.history@ == self.history@.drop_last()
        &&& after.zobrist == self.zobrist
    }

    /// The side of the piece on the square of a one-square mask.
    fn check_side(&self, mask: Bitboard) -> (r: Side)
        requires
            self.wf(),
            one_square(mask.bitboard),
            self.pieces[0][sq_of(mask.bitboard)] is Some || self.pieces[1][sq_of(
                mask.bitboard,
            )] is Some,
        ensures
            r == (if self.pieces[0][sq_of(mask.bitboard)] is Some {
                Side::White
            } else {
                Side::Black
            }),
    {
        let ghost sq = sq_of(mask.bitboard);
        proof {
            crate::types::bitboard::lemma_lowest(mask.bitboard);
            lemma_and_single(self.occupied[0].bitboard, sq);
            assert(self.square_ok(sq));
        }
        if self.occupied[0].and(mask).not_empty() {
            Side::White
        } else {
            Side::Black
        }
    }

    /// Whether the board accepts `m`: a piece of the side on its source
    /// square, none of that side on its target square, and for castling and
    /// en passant the conditions of `accepts`.
    pub fn accepts_move(&self, m: Move) -> (r: bool)
        requires
            self.wf(),
        ensures
            r == self.accepts(m),
    {
        let from = m.get_from().idx;
        let to = m.get_to().idx;
        let side = if self.pieces[0][from].is_some() {
            Side::White
        } else {
            Side::Black
        };
        let s = side.idx();
        let o = side.opponent().idx();
        let moved = match self.pieces[s][from] {
            Some(p) => p,
            None => {
                return false;
            },
        };
        if self.pieces[s][to].is_some() {
            return false;
        }
        let base: usize = match side {
            Side::White => 0,
            Side::Black => 56,
        };
        assert(back_rank_sq(side, 4) == base + 4);
        if moved == Piece::King && to == base + 6 && self.castle_kingside[s] {
            if !(from == base + 4 && self.pieces[s][base + 7] == Some(Piece::Rook) && self.pieces[0][base
                + 5].is_none() && self.pieces[1][base + 5].is_none()) {
                return false;
            }
        }
        if moved == Piece::King && to == base + 2 && self.castle_queenside[s] {
            if !(from == base + 4 && self.pieces[s][base] == Some(Piece::Rook) && self.pieces[0][base
                + 3].is_none() && self.pieces[1][base + 3].is_none()) {
                return false;
            }
        }
        let last_rank: usize = match side {
            Side::White => 7,
            Side::Black => 0,
        };
        let placed_pawn = moved == Piece::Pawn && to / 8 != last_rank;
        proof {
            lemma_single(to as int);
            if moved == Piece::Pawn && to / 8 == last_rank {
                assert(self.promotes(m));
                assert(m.promotion().piece() != Piece::Pawn);
            }
        }
        if placed_pawn && self.en_passant.bitboard == 1u64 << (to as u64) {
            match side {
                Side::White => {
                    if to < 8 || self.pieces[o][to - 8] != Some(Piece::Pawn) {
                        return false;
                    }
                },
                Side::Black => {
                    if to >= 56 || self.pieces[o][to + 8] != Some(Piece::Pawn) {
                        return false;
                    }
                },
            }
        }
        true
    }

    /// Makes the move `m`, recording on the history what it needs to be
    /// taken back.
    #[verifier::rlimit(60)]
    pub fn make_move(&mut self, m: Move)
        requires
            old(self).can_make(m),
        ensures
            old(self).makes(m, *final(self)),
    {
        let from_sq = m.get_from();
        let to_sq = m.get_to();
        let from_mask = Bitboard::from_square(from_sq);
        let to_mask = Bitboard::from_square(to_sq);
        let ghost from = from_sq.idx as int;
        let ghost to = to_sq.idx as int;
        let ghost b0 = *self;
        proof {
            lemma_single(from);
            lemma_single(to);
            assert(b0.square_ok(from));
            assert(b0.square_ok(to));
        }
        let side = self.check_side(from_mask);
        let opponent = side.opponent();
        let s = side.idx();
        let o = opponent.idx();
        let ghost mut f = b0.placement();

        let mut history_entry = History::new(
            from_mask,
            to_mask,
            self.castle_kingside,
            self.castle_queenside,
            self.half_moves_clock,
            self.en_passant,
            self.hash,
        );

        proof {
            lemma_and_single(self.any_piece.bitboard, to);
            f = placed(f, o as int, to, None);
        }
        if self.has_piece(to_mask) {
            history_entry.capture = self.check_piece(opponent, to_mask);
            self.remove_piece(opponent, to_mask);
        }
        assert(forall|a: int, i: int|
            0 <= a < 2 && 0 <= i < 64 ==> #[trigger] self.pieces[a][i] == f(a, i));
        assert(history_entry.capture == b0.history_entry(m).capture);

        let piece = self.check_piece(side, from_mask).unwrap();
        assert(piece == b0.moved_piece(m));

        let ghost b1 = *self;
        if piece == Piece::Rook {
            proof {
                lemma_single(back_rank_sq(side, 0));
                lemma_single(back_rank_sq(side, 7));
                lemma_single_injective(from, back_rank_sq(side, 0));
                lemma_single_injective(from, back_rank_sq(side, 7));
            }
            if self.castle_queenside[s] && from_mask == masks::rook_queenside(side) {
                let mut rights = self.castle_queenside;
                rights[s] = false;
                self.castle_queenside = rights;
            } else if self.castle_kingside[s] && from_mask == masks::rook_kingside(side) {
                let mut rights = self.castle_kingside;
                rights[s] = false;
                self.castle_kingside = rights;
            }
        }
        if piece == Piece::King {
            proof {
                lemma_single(back_rank_sq(side, 2));
                lemma_single(back_rank_sq(side, 6));
                lemma_single(back_rank_sq(side, 0));
                lemma_single(back_rank_sq(side, 3));
                lemma_single(back_rank_sq(side, 5));
                lemma_single(back_rank_sq(side, 7));
                lemma_single_injective(to, back_rank_sq(side, 2));
                lemma_single_injective(to, back_rank_sq(side, 6));
            }
            let kingside = to_mask == masks::castle_kingside(side) && self.castle_kingside[s];
            let queenside = !kingside && to_mask == masks::castle_queenside(side)
                && self.castle_queenside[s];
            let mut rights = self.castle_queenside;
            rights[s] = false;
            self.castle_queenside = rights;
            let mut rights = self.castle_kingside;
            rights[s] = false;
            self.castle_kingside = rights;
            proof {
                lemma_wf_keep(b1, *self);
            }
            if kingside {
                self.remove_piece(side, masks::rook_kingside(side));
                self.put_piece(side, masks::rook_castled_kingside(side), Piece::Rook);
            } else if queenside {
                self.remove_piece(side, masks::rook_queenside(side));
                self.put_piece(side, masks::rook_castled_queenside(side), Piece::Rook);
            }
        } else {
            proof {
                lemma_wf_keep(b1, *self);
            }
        }
        proof {
            if b0.castles_kingside(m) {
                f = placed(
                    placed(f, s as int, back_rank_sq(side, 7), None),
                    s as int,
                    back_rank_sq(side, 5),
                    Some(Piece::Rook),
                );
            } else if b0.castles_queenside(m) {
                f = placed(
                    placed(f, s as int, back_rank_sq(side, 0), None),
                    s as int,
                    back_rank_sq(side, 3),
                    Some(Piece::Rook),
                );
            }
        }
        assert(forall|a: int, i: int|
            0 <= a < 2 && 0 <= i < 64 ==> #[trigger] self.pieces[a][i] == f(a, i));

        let ghost b2 = *self;
        if piece == Piece::Pawn || history_entry.capture.is_some() {
            self.half_moves_clock = 0;
        } else {
            self.half_moves_clock = self.half_moves_clock + 1;
        }

        let mut placed_type = piece;
        let last = masks::last_rank(side);
        proof {
            lemma_and_single(last.bitboard, to);
            assert(last.has(to) == (to / 8 == promotion_rank(side)));
        }
        if piece == Piece::Pawn && to_mask.and(last).not_empty() {
            placed_type = Piece::from_promotion(m.get_promotion());
            history_entry.promotion = true;
        }
        assert(placed_type == b0.placed_piece(m));
        assert(history_entry.promotion == b0.promotes(m));

        if placed_type == Piece::Pawn && to_mask == self.en_passant {
            proof {
                lemma_single_shift(to, 8);
                lemma_single(en_passant_victim(side, to));
            }
            let victim = match side {
                Side::White => to_mask.shr(8),
                Side::Black => to_mask.shl(8),
            };
            proof {
                lemma_wf_keep(b2, *self);
            }
            self.remove_piece(opponent, victim);
        } else {
            proof {
                lemma_wf_keep(b2, *self);
            }
        }
        proof {
            if b0.captures_en_passant(m) {
                f = placed(f, o as int, en_passant_victim(side, to), None);
            }
        }
        assert(forall|a: int, i: int|
            0 <= a < 2 && 0 <= i < 64 ==> #[trigger] self.pieces[a][i] == f(a, i));

        let ghost b_mid = *self;
        assert(b_mid.wf());
        self.en_passant = Bitboard::new();
        let ep_rank = masks::en_passant_rank(side);
        let start_rank = masks::second_rank(side);
        proof {
            lemma_and_single(start_rank.bitboard, from);
            lemma_and_single(ep_rank.bitboard, to);
            assert(start_rank.has(from) == (from / 8 == pawn_rank(side)));
            assert(ep_rank.has(to) == (to / 8 == double_push_rank(side)));
        }
        if placed_type == Piece::Pawn && from_mask.and(start_rank).not_empty()
            && to_mask.and(ep_rank).not_empty() && to_mask.shl(1).or(to_mask.shr(1)).and(
            ep_rank,
        ).and(self.pawns[o]).not_empty() {
            proof {
                lemma_single_shift(from, 8);
            }
            self.en_passant = match side {
                Side::White => from_mask.shl(8),
                Side::Black => from_mask.shr(8),
            };
        }
        proof {
            if to / 8 == double_push_rank(side) {
                assert forall|x: int| 0 <= x < 64 implies #[trigger] bit(ep_rank.bitboard, x) == (x
                    / 8 == to / 8) by {
                    assert(ep_rank.has(x) == (x / 8 == double_push_rank(side)));
                }
                lemma_neighbour_pawns(b_mid.pawns[o as int].bitboard, ep_rank.bitboard, to);
                if to % 8 > 0 {
                    assert(b_mid.square_ok(to - 1));
                    assert(f(o as int, to - 1) == b0.pieces[o as int][to - 1]);
                }
                if to % 8 < 7 {
                    assert(b_mid.square_ok(to + 1));
                    assert(f(o as int, to + 1) == b0.pieces[o as int][to + 1]);
                }
            }
        }
        assert(self.en_passant.bitboard == (if b0.pushes_double(m) {
            single(passed_square(side, from))
        } else {
            0
        }));

        proof {
            lemma_wf_keep(b_mid, *self);
        }
        self.put_piece(side, to_mask, placed_type);
        self.remove_piece(side, from_mask);
        proof {
            f = placed(placed(f, s as int, to, Some(placed_type)), s as int, from, None);
        }
        assert(forall|a: int, i: int|
            0 <= a < 2 && 0 <= i < 64 ==> #[trigger] self.pieces[a][i] == f(a, i));

        let ghost b_end = *self;
        self.current_color = opponent;
        if self.current_color.is_white() {
            self.full_moves_count = self.full_moves_count + 1;
        }
        assert(history_entry == b0.history_entry(m));
        self.history.push(history_entry);
        self.update_hash();
        proof {
            lemma_wf_keep(b_end, *self);
        }
    }

    /// Takes back the last move made with `make_move`.
    #[verifier::rlimit(100)]
    #[verifier::spinoff_prover]
    pub fn unmake_move(&mut self)
        requires
            old(self).can_unmake(),
        ensures
            old(self).unmakes(*final(self)),
    {
        let ghost b0 = *self;
        let ghost h = b0.last_entry();
        let ghost to = sq_of(h.to.bitboard);
        let ghost from = sq_of(h.from.bitboard);
        let last_move = self.history.pop().unwrap();
        proof {
            lemma_wf_keep(b0, *self);
            crate::types::bitboard::lemma_lowest(h.to.bitboard);
            crate::types::bitboard::lemma_lowest(h.from.bitboard);
        }
        let side = self.check_side(last_move.to);
        let opponent = side.opponent();
        let s = side.idx();
        proof {
            lemma_single(back_rank_sq(side, 0));
            lemma_single(back_rank_sq(side, 2));
            lemma_single(back_rank_sq(side, 3));
            lemma_single(back_rank_sq(side, 4));
            lemma_single(back_rank_sq(side, 5));
            lemma_single(back_rank_sq(side, 6));
            lemma_single(back_rank_sq(side, 7));
        }
        let kingside = self.castle_kingside[s] != last_move.castle_kingside[s]
            && last_move.from == masks::king_starting_position(side)
            && last_move.to == masks::castle_kingside(side)
            && is_king(self.check_piece(side, masks::castle_kingside(side)));
        let queenside = self.castle_queenside[s] != last_move.castle_queenside[s]
            && last_move.from == masks::king_starting_position(side)
            && last_move.to == masks::castle_queenside(side)
            && is_king(self.check_piece(side, masks::castle_queenside(side)));
        assert(kingside == b0.uncastles_kingside());
        assert(queenside == b0.uncastles_queenside());
        self.unmake_castling(side, kingside, queenside, Ghost(b0));

        let ghost b1 = *self;
        self.castle_kingside = last_move.castle_kingside;
        self.castle_queenside = last_move.castle_queenside;
        proof {
            lemma_wf_keep(b1, *self);
        }

        let mut piece_type = self.check_piece(side, last_move.to).unwrap();
        if last_move.promotion {
            piece_type = Piece::Pawn;
        }
        assert(piece_type == b0.unmoved_piece());

        if piece_type == Piece::Pawn && last_move.en_passant == last_move.to {
            proof {
                lemma_single_shift(to, 8);
                lemma_single(en_passant_victim(side, to));
            }
            let capture_square = last_move.en_passant;
            let victim = match side {
                Side::White => capture_square.shr(8),
                Side::Black => capture_square.shl(8),
            };
            self.put_piece(opponent, victim, Piece::Pawn);
        }
        assert(forall|a: int, i: int|
            0 <= a < 2 && 0 <= i < 64 ==> #[trigger] self.pieces[a][i] == b0.unmake_victim()(a, i));

        self.remove_piece(side, last_move.to);
        assert(forall|a: int, i: int|
            0 <= a < 2 && 0 <= i < 64 ==> #[trigger] self.pieces[a][i] == b0.unmake_lifted()(a, i));
        self.put_piece(side, last_move.from, piece_type);
        assert(forall|a: int, i: int|
            0 <= a < 2 && 0 <= i < 64 ==> #[trigger] self.pieces[a][i] == b0.unmake_returned()(a, i));
        if last_move.capture.is_some() {
            self.put_piece(opponent, last_move.to, last_move.capture.unwrap());
        }
        assert(forall|a: int, i: int|
            0 <= a < 2 && 0 <= i < 64 ==> #[trigger] self.pieces[a][i] == b0.placement_before()(a, i));

        let ghost b2 = *self;
        self.current_color = side;
        self.half_moves_clock = last_move.half_moves;
        self.en_passant = last_move.en_passant;
        if self.current_color.is_black() {
            self.full_moves_count = self.full_moves_count - 1;
        }
        self.hash = last_move.hash;
        proof {
            lemma_wf_keep(b2, *self);
        }
    }

    /// Puts a castling rook back in its corner.
    fn unmake_castling(&mut self, side: Side, kingside: bool, queenside: bool, Ghost(b0): Ghost<Board>)
        requires
            b0.can_unmake(),
            old(self).wf(),
            forall|a: int, i: int|
                0 <= a < 2 && 0 <= i < 64 ==> #[trigger] old(self).pieces[a][i] == b0.pieces[a][i],
            side == b0.unmover(),
            kingside == b0.uncastles_kingside(),
            queenside == b0.uncastles_queenside(),
        ensures
            final(self).wf(),
            forall|a: int, i: int|
                0 <= a < 2 && 0 <= i < 64 ==> #[trigger] final(self).pieces[a][i] == b0.unmake_rooks()(a, i),
            final(self).same_but_pieces(*old(self)),
    {
        proof {
            lemma_single(back_rank_sq(side, 0));
            lemma_single(back_rank_sq(side, 3));
            lemma_single(back_rank_sq(side, 5));
            lemma_single(back_rank_sq(side, 7));
        }
        if kingside {
            self.remove_piece(side, masks::rook_castled_kingside(side));
            self.put_piece(side, masks::rook_kingside(side), Piece::Rook);
        }
        if queenside {
            self.remove_piece(side, masks::rook_castled_queenside(side));
            self.put_piece(side, masks::rook_queenside(side), Piece::Rook);
        }
    }

    /// Passes the turn without moving, recording what it needs to be taken
    /// back.
    pub fn make_null(&mut self)
        requires
            old(self).wf(),
            old(self).half_moves_clock < u32::MAX,
            old(self).current_color == Side::Black ==> old(self).full_moves_count < u32::MAX,
        ensures
            old(self).makes_null(*final(self)),
    {
        let ghost b0 = *self;
        let history_entry = History::new(
            Bitboard::new(),
            Bitboard::new(),
            self.castle_kingside,
            self.castle_queenside,
            self.half_moves_clock,
            self.en_passant,
            self.hash,
        );
        self.history.push(history_entry);
        self.current_color = self.current_color.opponent();
        if self.current_color.is_white() {
            self.full_moves_count = self.full_moves_count + 1;
        }
        self.en_passant = Bitboard::new();
        self.half_moves_clock = self.half_moves_clock + 1;
        self.update_hash();
        proof {
            lemma_wf_keep(b0, *self);
        }
    }

    /// Takes back a pass made with `make_null`.
    pub fn unmake_null(&mut self)
        requires
            old(self).wf(),
            old(self).history@.len() > 0,
            old(self).current_color == Side::White ==> old(self).full_moves_count > 0,
        ensures
            old(self).unmakes_null(*final(self)),
    {
        let ghost b0 = *self;
        if self.current_color.is_white() {
            self.full_moves_count = self.full_moves_count - 1;
        }
        let history_entry = self.history.pop().unwrap();
        self.half_moves_clock = history_entry.half_moves;
        self.current_color = self.current_color.opponent();
        self.en_passant = history_entry.en_passant;
        self.hash = history_entry.hash;
        proof {
            lemma_wf_keep(b0, *self);
        }
    }
}

/// The facts about the board after `m` that taking `m` back relies on.
proof fn lemma_made_facts(b0: Board, m: Move, b1: Board)
    requires
        b0.can_make(m),
        b0.en_passant_sane(),
        b0.mover(m) == b0.current_color,
        b0.makes(m, b1),
    ensures
        b1.history@.len() > 0,
        b1.last_entry() == b0.history_entry(m),
        b1.unmover() == b0.mover(m),
        b1.uncastles_kingside() == b0.castles_kingside(m),
        b1.uncastles_queenside() == b0.castles_queenside(m),
        b1.unmoved_piece() == b0.moved_piece(m),
        b1.restores_en_passant() == b0.captures_en_passant(m),
        m.from_sq() != m.to_sq(),
        0 <= m.from_sq() < 64,
        0 <= m.to_sq() < 64,
{
    let side = b0.mover(m);
    let s = side.spec_idx();
    let o = side.spec_opponent().spec_idx();
    let from = m.from_sq();
    let to = m.to_sq();
    let w = m.m;
    assert(w & 63u16 < 64u16 && (w & 4032u16) >> 6u16 < 64u16) by (bit_vector);
    assert(b0.square_ok(from));
    assert(b0.square_ok(to));
    lemma_single(from);
    lemma_single(to);
    lemma_single(back_rank_sq(side, 2));
    lemma_single(back_rank_sq(side, 4));
    lemma_single(back_rank_sq(side, 6));
    lemma_single_injective(from, back_rank_sq(side, 4));
    lemma_single_injective(to, back_rank_sq(side, 2));
    lemma_single_injective(to, back_rank_sq(side, 6));
    assert(b1.history@.last() == b0.history_entry(m));
    assert(b1.pieces[s][to] == Some(b0.placed_piece(m)));
    assert(b1.pieces[o][to] is None);
    if s == 0 {
        assert(b1.pieces[0][to] is Some);
    } else {
        assert(b1.pieces[0][to] is None);
    }
    assert(b1.unmover() == side);
    assert(b1.castle_kingside[s] == b0.kingside_right_after(m, s));
    assert(b1.castle_queenside[s] == b0.queenside_right_after(m, s));
    if b0.promotes(m) {
        assert(b0.en_passant.bitboard != single(to)) by {
            if b0.en_passant.bitboard == single(to) {
                assert(sq_of(b0.en_passant.bitboard) == to);
            }
        }
    }
}

/// A move that the board accepts, made by the side to move on a board
/// whose en passant square is sane, can be taken back.
pub proof fn lemma_can_unmake_after_make(b0: Board, m: Move, b1: Board)
    requires
        b0.can_make(m),
        b0.en_passant_sane(),
        b0.mover(m) == b0.current_color,
        b0.makes(m, b1),
    ensures
        b1.can_unmake(),
{
    lemma_made_facts(b0, m, b1);
    let side = b0.mover(m);
    let s = side.spec_idx();
    let o = side.spec_opponent().spec_idx();
    let from = m.from_sq();
    let to = m.to_sq();
    lemma_single(from);
    lemma_single(to);
    assert(b0.square_ok(from));
    assert(b0.square_ok(to));
    if b0.captures_en_passant(m) {
        let v = en_passant_victim(side, to);
        assert(b0.square_ok(v));
        assert(b1.pieces[o][v] is None);
        assert(b1.pieces[s][v] is None);
    }
    if b0.castles_kingside(m) {
        assert(b0.square_ok(back_rank_sq(side, 7)));
    }
    if b0.castles_queenside(m) {
        assert(b0.square_ok(back_rank_sq(side, 0)));
    }
    assert(b1.unmake_victim()(s, to) is Some);
    assert(b1.unmake_lifted()(0, from) is None);
    assert(b1.unmake_lifted()(1, from) is None);
    let h = b1.last_entry();
    assert(b1.wf());
    assert(one_square(h.to.bitboard));
    assert(one_square(h.from.bitboard));
    assert(sq_of(h.to.bitboard) == to);
    assert(sq_of(h.from.bitboard) == from);
    assert(b1.pieces[0][to] is Some || b1.pieces[1][to] is Some);
    assert(b1.uncastles_kingside() ==> {
        &&& b1.pieces[s][back_rank_sq(side, 5)] is Some
        &&& b1.pieces[0][back_rank_sq(side, 7)] is None
        &&& b1.pieces[1][back_rank_sq(side, 7)] is None
    });
    assert(b1.uncastles_queenside() ==> {
        &&& b1.pieces[s][back_rank_sq(side, 3)] is Some
        &&& b1.pieces[0][back_rank_sq(side, 0)] is None
        &&& b1.pieces[1][back_rank_sq(side, 0)] is None
    });
    assert(h.capture is Some ==> {
        &&& b1.unmake_returned()(0, to) is None
        &&& b1.unmake_returned()(1, to) is None
    });
    assert(side == Side::Black ==> b1.full_moves_count > 0);
}

/// Taking back a move restores the board: a move that the board accepts,
/// made by the side to move on a board whose en passant square is sane,
/// then taken back, leaves the position, the rights, the clocks, the en
/// passant square, the hash and the history as they were.
pub proof fn lemma_unmake_after_make(b0: Board, m: Move, b1: Board, b2: Board)
    requires
        b0.can_make(m),
        b0.en_passant_sane(),
        b0.mover(m) == b0.current_color,
        b0.makes(m, b1),
        b1.unmakes(b2),
    ensures
        b2.same_position(b0),
{
    lemma_made_facts(b0, m, b1);
    let side = b0.mover(m);
    let s = side.spec_idx();
    let o = side.spec_opponent().spec_idx();
    let from = m.from_sq();
    let to = m.to_sq();
    lemma_single(from);
    lemma_single(to);
    assert forall|a: int, i: int| 0 <= a < 2 && 0 <= i < 64 implies #[trigger] b2.pieces[a][i]
        == b0.pieces[a][i] by {
        assert(b0.square_ok(i));
        assert(b0.square_ok(from));
        assert(b0.square_ok(to));
        if b0.captures_en_passant(m) {
            assert(b0.square_ok(en_passant_victim(side, to)));
        }
    }
    crate::board::board::lemma_wf_unique(b2, b0);
    assert(b2.history@ =~= b0.history@);
    assert(b2.full_moves_count == b0.full_moves_count);
}

/// Taking back a passed turn restores the board.
pub proof fn lemma_unmake_null_after_make_null(b0: Board, b1: Board, b2: Board)
    requires
        b0.wf(),
        b0.makes_null(b1),
        b1.unmakes_null(b2),
    ensures
        b2.same_position(b0),
{
    assert(b1.last_entry().en_passant == b0.en_passant);
    crate::board::board::lemma_wf_unique(b2, b0);
    assert(b2.history@ =~= b0.history@);
}

/// Boards with the same position take back the last move alike.
pub proof fn lemma_same_position_unmake(a: Board, b: Board)
    requires
        a.same_position(b),
    ensures
        a.can_unmake() == b.can_unmake(),
        forall|x: Board| #[trigger] a.unmakes(x) == b.unmakes(x),
{
    assert(a.placement() =~= b.placement());
    if a.wf() {
        lemma_wf_keep(a, b);
    }
    if b.wf() {
        lemma_wf_keep(b, a);
    }
}

/// Boards with the same position take back a passed turn alike.
pub proof fn lemma_same_position_unmake_null(a: Board, b: Board)
    requires
        a.same_position(b),
    ensures
        forall|x: Board| #[trigger] a.unmakes_null(x) == b.unmakes_null(x),
{
}

/// Boards with the same position are playable alike.
pub proof fn lemma_same_position_playable(a: Board, b: Board)
    requires
        a.same_position(b),
        a.playable(),
    ensures
        b.playable(),
{
    lemma_wf_keep(a, b);
}

/// Whether a square holds a king.
fn is_king(p: Option<Piece>) -> (r: bool)
    ensures
        r == (p == Some(Piece::King)),
{
    match p {
        Some(Piece::King) => true,
        _ => false,
    }
}

/// Changing what is not the pieces keeps a board well formed.
pub proof fn lemma_wf_keep(a: Board, b: Board)
    requires
        a.wf(),
        b.kings == a.kings,
        b.queens == a.queens,
        b.rooks == a.rooks,
        b.bishops == a.bishops,
        b.knights == a.knights,
        b.pawns == a.pawns,
        b.pieces == a.pieces,
        b.occupied == a.occupied,
        b.any_piece == a.any_piece,
    ensures
        b.wf(),
{
    assert forall|i: int| 0 <= i < 64 implies #[trigger] b.square_ok(i) by {
        assert(a.square_ok(i));
    }
}

/// The squares beside `t` on its rank that hold a square of `pawns`,
/// computed with shifts.
proof fn lemma_neighbour_pawns(pawns: u64, rank: u64, t: int)
    requires
        0 <= t < 64,
        forall|x: int| 0 <= x < 64 ==> #[trigger] bit(rank, x) == (x / 8 == t / 8),
    ensures
        ((((single(t) << 1u64) | (single(t) >> 1u64)) & rank & pawns) != 0) == ((t % 8 > 0 && bit(
            pawns,
            t - 1,
        )) || (t % 8 < 7 && bit(pawns, t + 1))),
{
    let x = ((single(t) << 1u64) | (single(t) >> 1u64)) & rank & pawns;
    if t % 8 > 0 && bit(pawns, t - 1) {
        assert(bit(x, t - 1));
        crate::types::bitboard::lemma_bits_empty_forall();
    }
    if t % 8 < 7 && bit(pawns, t + 1) {
        assert(bit(x, t + 1));
        crate::types::bitboard::lemma_bits_empty_forall();
    }
    if x != 0 {
        crate::types::bitboard::lemma_lowest(x);
        let i = vstd::std_specs::bits::u64_trailing_zeros(x) as int;
        assert(bit(x, i));
        assert(i == t + 1 || i == t - 1);
    }
}

} // verus!
