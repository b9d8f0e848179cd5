use vstd::prelude::*;
use crate::types::bitboard::{bit, single, one_square, sq_of, group_bits, lemma_single};
use crate::types::{Bitboard, Move, Piece, Side, Square};
use crate::transpositions::Zobrist;
use crate::board::magics::Sliders;
use std::rc::Rc;

verus! {

broadcast use group_bits;

pub type ColorBitboard = [Bitboard; 2];
pub type ColorBool = [bool; 2];
pub type PieceList = [Option<Piece>; 64];
pub type ColorPieceList = [PieceList; 2];

/// What a move changed, kept so that it can be taken back.
#[derive(Copy, Clone)]
pub struct History {
    pub from: Bitboard,
    pub to: Bitboard,
    pub castle_kingside: ColorBool,
    pub castle_queenside: ColorBool,
    pub capture: Option<Piece>,
    pub half_moves: u32,
    pub promotion: bool,
    pub en_passant: Bitboard,
    pub hash: u64,
}

impl History {
    pub fn new(
        from: Bitboard,
        to: Bitboard,
        castle_kingside: ColorBool,
        castle_queenside: ColorBool,
        half_moves: u32,
        en_passant: Bitboard,
        hash: u64,
    ) -> (r: Self)
        ensures
            r.from == from,
            r.to == to,
            r.castle_kingside == castle_kingside,
            r.castle_queenside == castle_queenside,
            r.capture.is_none(),
            r.half_moves == half_moves,
            !r.promotion,
            r.en_passant == en_passant,
            r.hash == hash,
    {
        Self {
            from,
            to,
            castle_kingside,
            castle_queenside,
            capture: None,
            half_moves,
            promotion: false,
            en_passant,
            hash,
        }
    }
}

/// A chess position: one bitboard per side and piece kind, the piece on
/// every square, occupancy masks, castling rights, the side to move, the
/// clocks, the en passant square, the Zobrist hash and the list of moves
/// made, for taking them back.
#[derive(Clone)]
pub struct Board {
    pub kings: ColorBitboard,
    pub queens: ColorBitboard,
    pub rooks: ColorBitboard,
    pub bishops: ColorBitboard,
    pub knights: ColorBitboard,
    pub pawns: ColorBitboard,
    pub pieces: ColorPieceList,
    pub occupied: ColorBitboard,
    pub any_piece: Bitboard,
    pub castle_kingside: ColorBool,
    pub castle_queenside: ColorBool,
    pub current_color: Side,
    pub history: Vec<History>,
    pub hash: u64,
    pub half_moves_clock: u32,
    pub full_moves_count: u32,
    pub en_passant: Bitboard,
    pub zobrist: Zobrist,
    pub sliders: Rc<Sliders>,
}

impl Board {
    /// The bitboards of side `s` agree with its piece list on square `i`.
    pub open spec fn side_square_ok(self, s: int, i: int) -> bool {
        &&& bit(self.kings[s].bitboard, i) == (self.pieces[s][i] == Some(Piece::King))
        &&& bit(self.queens[s].bitboard, i) == (self.pieces[s][i] == Some(Piece::Queen))
        &&& bit(self.rooks[s].bitboard, i) == (self.pieces[s][i] == Some(Piece::Rook))
        &&& bit(self.bishops[s].bitboard, i) == (self.pieces[s][i] == Some(Piece::Bishop))
        &&& bit(self.knights[s].bitboard, i) == (self.pieces[s][i] == Some(Piece::Knight))
        &&& bit(self.pawns[s].bitboard, i) == (self.pieces[s][i] == Some(Piece::Pawn))
        &&& bit(self.occupied[s].bitboard, i) == (self.pieces[s][i] is Some)
    }

    /// All representations agree on square `i`, which holds at most one
    /// piece.
    pub open spec fn square_ok(self, i: int) -> bool {
        &&& self.side_square_ok(0, i)
        &&& self.side_square_ok(1, i)
        &&& bit(self.any_piece.bitboard, i) == (self.pieces[0][i] is Some || self.pieces[1][i] is Some)
        &&& !(self.pieces[0][i] is Some && self.pieces[1][i] is Some)
    }

    /// The board is well formed: its bitboards, occupancy masks and piece
    /// lists describe the same position.
    pub open spec fn wf(self) -> bool {
        forall|i: int| 0 <= i < 64 ==> #[trigger] self.square_ok(i)
    }

    /// Everything but the pieces is the same on both boards.
    pub open spec fn same_but_pieces(self, other: Board) -> bool {
        &&& self.castle_kingside == other.castle_kingside
        &&& self.castle_queenside == other.castle_queenside
        &&& self.current_color == other.current_color
        &&& self.history@ == other.history@
        &&& self.hash == other.hash
        &&& self.half_moves_clock == other.half_moves_clock
        &&& self.full_moves_count == other.full_moves_count
        &&& self.en_passant == other.en_passant
        &&& self.zobrist == other.zobrist
    }

    /// The piece lists of the boards agree, except possibly on square `sq`
    /// of side `side`, which holds `v` on `other`.
    pub open spec fn pieces_updated(self, other: Board, side: int, sq: int, v: Option<Piece>) -> bool {
        &&& other.pieces[side][sq] == v
        &&& forall|s: int, i: int|
            0 <= s < 2 && 0 <= i < 64 && !(s == side && i == sq) ==> #[trigger] other.pieces[s][i]
                == self.pieces[s][i]
    }

    /// Both boards have the same bitboards and piece lists.
    pub open spec fn same_pieces(self, other: Board) -> bool {
        &&& self.kings == other.kings
        &&& self.queens == other.queens
        &&& self.rooks == other.rooks
        &&& self.bishops == other.bishops
        &&& self.knights == other.knights
        &&& self.pawns == other.pawns
        &&& self.pieces == other.pieces
        &&& self.occupied == other.occupied
        &&& self.any_piece == other.any_piece
    }

    /// Both boards hold the same position and history, field by field.
    pub open spec fn same_position(self, other: Board) -> bool {
        &&& self.kings == other.kings
        &&& self.queens == other.queens
        &&& self.rooks == other.rooks
        &&& self.bishops == other.bishops
        &&& self.knights == other.knights
        &&& self.pawns == other.pawns
        &&& self.pieces == other.pieces
        &&& self.occupied == other.occupied
        &&& self.any_piece == other.any_piece
        &&& self.castle_kingside == other.castle_kingside
        &&& self.castle_queenside == other.castle_queenside
        &&& self.current_color == other.current_color
        &&& self.history@ == other.history@
        &&& self.hash == other.hash
        &&& self.half_moves_clock == other.half_moves_clock
        &&& self.full_moves_count == other.full_moves_count
        &&& self.en_passant == other.en_passant
        &&& self.zobrist == other.zobrist
    }

    /// An empty board with white to move, all castling rights, fresh
    /// random Zobrist keys and the attack tables of the sliders.
    pub fn new() -> (r: Self)
        ensures
            r.wf(),
            forall|s: int, i: int| 0 <= s < 2 && 0 <= i < 64 ==> #[trigger] r.pieces[s][i].is_none(),
            r.castle_kingside == [true, true],
            r.castle_queenside == [true, true],
            r.current_color == Side::White,
            r.history@ == Seq::<History>::empty(),
            r.hash == 0,
            r.half_moves_clock == 0,
            r.full_moves_count == 1,
            r.en_passant.bitboard == 0,
    {
        let e = Bitboard::new();
        let r = Self {
            kings: [e, e],
            queens: [e, e],
            rooks: [e, e],
            bishops: [e, e],
            knights: [e, e],
            pawns: [e, e],
            pieces: [[None; 64]; 2],
            occupied: [e, e],
            any_piece: e,
            castle_kingside: [true, true],
            castle_queenside: [true, true],
            current_color: Side::White,
            history: Vec::new(),
            hash: 0,
            half_moves_clock: 0,
            full_moves_count: 1,
            en_passant: e,
            zobrist: Zobrist::new(),
            sliders: Rc::new(Sliders::new()),
        };
        assert forall|i: int| 0 <= i < 64 implies #[trigger] r.square_ok(i) by {
            assert(r.pieces[0][i].is_none());
            assert(r.pieces[1][i].is_none());
        }
        r
    }

    /// The standard starting position, with the hash of the position.
    pub fn from_starting_position() -> (r: Board)
        ensures
            r.wf(),
            forall|s: int, i: int|
                0 <= s < 2 && 0 <= i < 64 ==> #[trigger] r.pieces[s][i] == starting_piece(s, i),
            r.castle_kingside == [true, true],
            r.castle_queenside == [true, true],
            r.current_color == Side::White,
            r.history@ == Seq::<History>::empty(),
            r.half_moves_clock == 0,
            r.full_moves_count == 1,
            r.en_passant.bitboard == 0,
            r.hash == r.position_hash(),
    {
        let mut board = Board::new();
        let mut file: usize = 0;
        while file < 8
            invariant
                file <= 8,
                board.wf(),
                forall|s: int, i: int|
                    0 <= s < 2 && 0 <= i < 64 ==> #[trigger] board.pieces[s][i] == (if i % 8
                        < file && (i / 8 <= 1 || i / 8 >= 6) {
                        starting_piece(s, i)
                    } else {
                        None
                    }),
                board.castle_kingside == [true, true],
                board.castle_queenside == [true, true],
                board.current_color == Side::White,
                board.history@ == Seq::<History>::empty(),
                board.half_moves_clock == 0,
                board.full_moves_count == 1,
                board.en_passant.bitboard == 0,
            decreases 8 - file,
        {
            let piece = back_rank_piece(file);
            proof {
                lemma_single(file as int);
                lemma_single(56 + file);
                lemma_single(8 + file);
                lemma_single(48 + file);
            }
            board.put_piece(Side::White, Bitboard::from_coords(file, 0), piece);
            board.put_piece(Side::Black, Bitboard::from_coords(file, 7), piece);
            board.put_piece(Side::White, Bitboard::from_coords(file, 1), Piece::Pawn);
            board.put_piece(Side::Black, Bitboard::from_coords(file, 6), Piece::Pawn);
            file = file + 1;
        }
        let ghost placed = board;
        board.update_hash();
        proof {
            crate::board::make::lemma_wf_keep(placed, board);
        }
        board
    }

    /// Puts a piece of kind `piece` of `side` on the empty square of the
    /// one-square mask `mask`.
    pub fn put_piece(&mut self, side: Side, mask: Bitboard, piece: Piece)
        requires
            old(self).wf(),
            one_square(mask.bitboard),
            old(self).pieces[0][sq_of(mask.bitboard)] is None,
            old(self).pieces[1][sq_of(mask.bitboard)] is None,
        ensures
            final(self).wf(),
            old(self).pieces_updated(*final(self), side.spec_idx(), sq_of(mask.bitboard), Some(piece)),
            final(self).same_but_pieces(*old(self)),
    {
        let s = side.idx();
        let ghost sq = sq_of(mask.bitboard);
        proof {
            assert(0 <= sq < 64) by {
                crate::types::bitboard::lemma_lowest(mask.bitboard);
            }
        }
        match piece {
            Piece::King => self.kings[s] = self.kings[s].or(mask),
            Piece::Queen => self.queens[s] = self.queens[s].or(mask),
            Piece::Rook => self.rooks[s] = self.rooks[s].or(mask),
            Piece::Bishop => self.bishops[s] = self.bishops[s].or(mask),
            Piece::Knight => self.knights[s] = self.knights[s].or(mask),
            Piece::Pawn => self.pawns[s] = self.pawns[s].or(mask),
        }
        self.occupied[s] = self.occupied[s].or(mask);
        self.any_piece = self.any_piece.or(mask);
        let idx = mask.peek().idx;
        let mut row = self.pieces[s];
        row[idx] = Some(piece);
        self.pieces[s] = row;
        proof {
            assert forall|i: int| 0 <= i < 64 implies #[trigger] self.square_ok(i) by {
                assert(old(self).square_ok(i));
                crate::types::bitboard::lemma_bit_single(sq, i);
            }
        }
    }

    pub fn put_king(&mut self, side: Side, mask: Bitboard)
        requires
            old(self).wf(),
            one_square(mask.bitboard),
            old(self).pieces[0][sq_of(mask.bitboard)] is None,
            old(self).pieces[1][sq_of(mask.bitboard)] is None,
        ensures
            final(self).wf(),
            old(self).pieces_updated(*final(self), side.spec_idx(), sq_of(mask.bitboard), Some(Piece::King)),
            final(self).same_but_pieces(*old(self)),
    {
        self.put_piece(side, mask, Piece::King)
    }

    pub fn put_queen(&mut self, side: Side, mask: Bitboard)
        requires
            old(self).wf(),
            one_square(mask.bitboard),
            old(self).pieces[0][sq_of(mask.bitboard)] is None,
            old(self).pieces[1][sq_of(mask.bitboard)] is None,
        ensures
            final(self).wf(),
            old(self).pieces_updated(*final(self), side.spec_idx(), sq_of(mask.bitboard), Some(Piece::Queen)),
            final(self).same_but_pieces(*old(self)),
    {
        self.put_piece(side, mask, Piece::Queen)
    }

    pub fn put_rook(&mut self, side: Side, mask: Bitboard)
        requires
            old(self).wf(),
            one_square(mask.bitboard),
            old(self).pieces[0][sq_of(mask.bitboard)] is None,
            old(self).pieces[1][sq_of(mask.bitboard)] is None,
        ensures
            final(self).wf(),
            old(self).pieces_updated(*final(self), side.spec_idx(), sq_of(mask.bitboard), Some(Piece::Rook)),
            final(self).same_but_pieces(*old(self)),
    {
        self.put_piece(side, mask, Piece::Rook)
    }

    pub fn put_bishop(&mut self, side: Side, mask: Bitboard)
        requires
            old(self).wf(),
            one_square(mask.bitboard),
            old(self).pieces[0][sq_of(mask.bitboard)] is None,
            old(self).pieces[1][sq_of(mask.bitboard)] is None,
        ensures
            final(self).wf(),
            old(self).pieces_updated(*final(self), side.spec_idx(), sq_of(mask.bitboard), Some(Piece::Bishop)),
            final(self).same_but_pieces(*old(self)),
    {
        self.put_piece(side, mask, Piece::Bishop)
    }

    pub fn put_knight(&mut self, side: Side, mask: Bitboard)
        requires
            old(self).wf(),
            one_square(mask.bitboard),
            old(self).pieces[0][sq_of(mask.bitboard)] is None,
            old(self).pieces[1][sq_of(mask.bitboard)] is None,
        ensures
            final(self).wf(),
            old(self).pieces_updated(*final(self), side.spec_idx(), sq_of(mask.bitboard), Some(Piece::Knight)),
            final(self).same_but_pieces(*old(self)),
    {
        self.put_piece(side, mask, Piece::Knight)
    }

    pub fn put_pawn(&mut self, side: Side, mask: Bitboard)
        requires
            old(self).wf(),
            one_square(mask.bitboard),
            old(self).pieces[0][sq_of(mask.bitboard)] is None,
            old(self).pieces[1][sq_of(mask.bitboard)] is None,
        ensures
            final(self).wf(),
            old(self).pieces_updated(*final(self), side.spec_idx(), sq_of(mask.bitboard), Some(Piece::Pawn)),
            final(self).same_but_pieces(*old(self)),
    {
        self.put_piece(side, mask, Piece::Pawn)
    }

    /// Takes the piece of `side` off the square of the one-square mask
    /// `mask`.
    pub fn remove_piece(&mut self, side: Side, mask: Bitboard)
        requires
            old(self).wf(),
            one_square(mask.bitboard),
            old(self).pieces[side.spec_idx()][sq_of(mask.bitboard)] is Some,
        ensures
            final(self).wf(),
            old(self).pieces_updated(*final(self), side.spec_idx(), sq_of(mask.bitboard), None),
            final(self).same_but_pieces(*old(self)),
    {
        let s = side.idx();
        let ghost sq = sq_of(mask.bitboard);
        proof {
            assert(0 <= sq < 64) by {
                crate::types::bitboard::lemma_lowest(mask.bitboard);
            }
        }
        let idx = mask.peek().idx;
        self.any_piece = self.any_piece.xor(mask);
        self.occupied[s] = self.occupied[s].xor(mask);
        match self.pieces[s][idx] {
            Some(Piece::King) => self.kings[s] = self.kings[s].xor(mask),
            Some(Piece::Queen) => self.queens[s] = self.queens[s].xor(mask),
            Some(Piece::Rook) => self.rooks[s] = self.rooks[s].xor(mask),
            Some(Piece::Bishop) => self.bishops[s] = self.bishops[s].xor(mask),
            Some(Piece::Knight) => self.knights[s] = self.knights[s].xor(mask),
            _ => self.pawns[s] = self.pawns[s].xor(mask),
        }
        let mut row = self.pieces[s];
        row[idx] = None;
        self.pieces[s] = row;
        proof {
            assert forall|i: int| 0 <= i < 64 implies #[trigger] self.square_ok(i) by {
                assert(old(self).square_ok(i));
                crate::types::bitboard::lemma_bit_single(sq, i);
            }
        }
    }

    pub fn has_piece(&self, mask: Bitboard) -> (r: bool)
        ensures
            r == ((self.any_piece.bitboard & mask.bitboard) != 0),
    {
        self.any_piece.and(mask).not_empty()
    }

    /// The piece of `side` on the square of a one-square mask.
    pub fn check_piece(&self, side: Side, mask: Bitboard) -> (r: Option<Piece>)
        requires
            one_square(mask.bitboard),
        ensures
            r == self.pieces[side.spec_idx()][sq_of(mask.bitboard)],
    {
        proof {
            crate::types::bitboard::lemma_lowest(mask.bitboard);
        }
        self.pieces[side.idx()][mask.peek().idx]
    }

    pub fn key(&self) -> (r: u64)
        ensures
            r == self.hash,
    {
        self.hash
    }

    pub fn side_to_move(&self) -> (r: Side)
        ensures
            r == self.current_color,
    {
        self.current_color
    }

    /// The Zobrist hash of the position.
    pub open spec fn position_hash(self) -> u64 {
        crate::transpositions::zobrist::position_key(
            self.zobrist,
            self,
            self.castle_kingside,
            self.castle_queenside,
        )
    }

    /// Recomputes the hash from the position.
    pub fn update_hash(&mut self)
        ensures
            final(self).hash == old(self).position_hash(),
            final(self).kings == old(self).kings,
            final(self).queens == old(self).queens,
            final(self).rooks == old(self).rooks,
            final(self).bishops == old(self).bishops,
            final(self).knights == old(self).knights,
            final(self).pawns == old(self).pawns,
            final(self).pieces == old(self).pieces,
            final(self).occupied == old(self).occupied,
            final(self).any_piece == old(self).any_piece,
            final(self).castle_kingside == old(self).castle_kingside,
            final(self).castle_queenside == old(self).castle_queenside,
            final(self).current_color == old(self).current_color,
            final(self).history@ == old(self).history@,
            final(self).half_moves_clock == old(self).half_moves_clock,
            final(self).full_moves_count == old(self).full_moves_count,
            final(self).en_passant == old(self).en_passant,
            final(self).zobrist == old(self).zobrist,
    {
        let h = self.zobrist.key(self, self.castle_kingside, self.castle_queenside);
        self.hash = h;
    }

    /// Hashes the position with the keys `zobrist` from now on. The board
    /// has no history, whose hashes the new keys would not match.
    pub fn set_zobrist(&mut self, zobrist: Zobrist)
        requires
            old(self).history@.len() == 0,
        ensures
            final(self).zobrist == zobrist,
            final(self).hash == final(self).position_hash(),
            final(self).kings == old(self).kings,
            final(self).queens == old(self).queens,
            final(self).rooks == old(self).rooks,
            final(self).bishops == old(self).bishops,
            final(self).knights == old(self).knights,
            final(self).pawns == old(self).pawns,
            final(self).pieces == old(self).pieces,
            final(self).occupied == old(self).occupied,
            final(self).any_piece == old(self).any_piece,
            final(self).castle_kingside == old(self).castle_kingside,
            final(self).castle_queenside == old(self).castle_queenside,
            final(self).current_color == old(self).current_color,
            final(self).history@ == old(self).history@,
            final(self).half_moves_clock == old(self).half_moves_clock,
            final(self).full_moves_count == old(self).full_moves_count,
            final(self).en_passant == old(self).en_passant,
            old(self).wf() ==> final(self).wf(),
    {
        self.zobrist = zobrist;
        self.update_hash();
        proof {
            if old(self).wf() {
                crate::board::make::lemma_wf_keep(*old(self), *self);
            }
        }
    }

    /// Whether the current position occurred before, judged by its hash.
    pub fn repeated_position(&self) -> (r: bool)
        ensures
            r == (exists|i: int| 0 <= i < self.history@.len() && #[trigger] self.history@[i].hash == self.hash),
    {
        let mut i = 0usize;
        while i < self.history.len()
            invariant
                i <= self.history@.len(),
                forall|j: int| 0 <= j < i ==> #[trigger] self.history@[j].hash != self.hash,
            decreases self.history@.len() - i,
        {
            if self.history[i].hash == self.hash {
                return true;
            }
            i = i + 1;
        }
        false
    }
}


/// Two well formed boards with the same pieces on every square have the
/// same bitboards and piece lists.
pub proof fn lemma_wf_unique(a: Board, b: Board)
    requires
        a.wf(),
        b.wf(),
        forall|s: int, i: int| 0 <= s < 2 && 0 <= i < 64 ==> #[trigger] a.pieces[s][i] == b.pieces[s][i],
    ensures
        a.kings == b.kings,
        a.queens == b.queens,
        a.rooks == b.rooks,
        a.bishops == b.bishops,
        a.knights == b.knights,
        a.pawns == b.pawns,
        a.pieces == b.pieces,
        a.occupied == b.occupied,
        a.any_piece == b.any_piece,
{
    assert forall|i: int| 0 <= i < 64 implies #[trigger] a.square_ok(i) && b.square_ok(i) by {
        assert(a.square_ok(i));
        assert(b.square_ok(i));
    }
    assert forall|s: int| 0 <= s < 2 implies {
        &&& #[trigger] a.kings[s] == b.kings[s]
        &&& a.queens[s] == b.queens[s]
        &&& a.rooks[s] == b.rooks[s]
        &&& a.bishops[s] == b.bishops[s]
        &&& a.knights[s] == b.knights[s]
        &&& a.pawns[s] == b.pawns[s]
        &&& a.occupied[s] == b.occupied[s]
        &&& a.pieces[s] =~= b.pieces[s]
    } by {
        assert forall|i: int| 0 <= i < 64 implies bit(a.kings[s].bitboard, i) == bit(b.kings[s].bitboard, i) by {
            assert(a.square_ok(i) && b.square_ok(i));
        }
        crate::types::bitboard::lemma_bits_ext(a.kings[s].bitboard, b.kings[s].bitboard);
        assert forall|i: int| 0 <= i < 64 implies bit(a.queens[s].bitboard, i) == bit(b.queens[s].bitboard, i) by {
            assert(a.square_ok(i) && b.square_ok(i));
        }
        crate::types::bitboard::lemma_bits_ext(a.queens[s].bitboard, b.queens[s].bitboard);
        assert forall|i: int| 0 <= i < 64 implies bit(a.rooks[s].bitboard, i) == bit(b.rooks[s].bitboard, i) by {
            assert(a.square_ok(i) && b.square_ok(i));
        }
        crate::types::bitboard::lemma_bits_ext(a.rooks[s].bitboard, b.rooks[s].bitboard);
        assert forall|i: int| 0 <= i < 64 implies bit(a.bishops[s].bitboard, i) == bit(b.bishops[s].bitboard, i) by {
            assert(a.square_ok(i) && b.square_ok(i));
        }
        crate::types::bitboard::lemma_bits_ext(a.bishops[s].bitboard, b.bishops[s].bitboard);
        assert forall|i: int| 0 <= i < 64 implies bit(a.knights[s].bitboard, i) == bit(b.knights[s].bitboard, i) by {
            assert(a.square_ok(i) && b.square_ok(i));
        }
        crate::types::bitboard::lemma_bits_ext(a.knights[s].bitboard, b.knights[s].bitboard);
        assert forall|i: int| 0 <= i < 64 implies bit(a.pawns[s].bitboard, i) == bit(b.pawns[s].bitboard, i) by {
            assert(a.square_ok(i) && b.square_ok(i));
        }
        crate::types::bitboard::lemma_bits_ext(a.pawns[s].bitboard, b.pawns[s].bitboard);
        assert forall|i: int| 0 <= i < 64 implies bit(a.occupied[s].bitboard, i) == bit(b.occupied[s].bitboard, i) by {
            assert(a.square_ok(i) && b.square_ok(i));
        }
        crate::types::bitboard::lemma_bits_ext(a.occupied[s].bitboard, b.occupied[s].bitboard);
    }
    assert(a.kings[0] == b.kings[0]);
    assert(a.kings[1] == b.kings[1]);
    assert(a.kings =~= b.kings);
    assert(a.queens =~= b.queens);
    assert(a.rooks =~= b.rooks);
    assert(a.bishops =~= b.bishops);
    assert(a.knights =~= b.knights);
    assert(a.pawns =~= b.pawns);
    assert(a.occupied =~= b.occupied);
    assert(a.pieces =~= b.pieces);
    assert forall|i: int| 0 <= i < 64 implies bit(a.any_piece.bitboard, i) == bit(b.any_piece.bitboard, i) by {
        assert(a.square_ok(i) && b.square_ok(i));
    }
    crate::types::bitboard::lemma_bits_ext(a.any_piece.bitboard, b.any_piece.bitboard);
}


/// The piece kind on file `file` of a back rank at the start.
pub open spec fn spec_back_rank_piece(file: int) -> Piece {
    if file == 0 || file == 7 {
        Piece::Rook
    } else if file == 1 || file == 6 {
        Piece::Knight
    } else if file == 2 || file == 5 {
        Piece::Bishop
    } else if file == 3 {
        Piece::Queen
    } else {
        Piece::King
    }
}

/// The piece of side index `s` on square `i` in the starting position.
pub open spec fn starting_piece(s: int, i: int) -> Option<Piece> {
    if s == 0 && i / 8 == 0 {
        Some(spec_back_rank_piece(i % 8))
    } else if s == 0 && i / 8 == 1 {
        Some(Piece::Pawn)
    } else if s == 1 && i / 8 == 6 {
        Some(Piece::Pawn)
    } else if s == 1 && i / 8 == 7 {
        Some(spec_back_rank_piece(i % 8))
    } else {
        None
    }
}

fn back_rank_piece(file: usize) -> (r: Piece)
    ensures
        r == spec_back_rank_piece(file as int),
{
    if file == 0 || file == 7 {
        Piece::Rook
    } else if file == 1 || file == 6 {
        Piece::Knight
    } else if file == 2 || file == 5 {
        Piece::Bishop
    } else if file == 3 {
        Piece::Queen
    } else {
        Piece::King
    }
}

} // verus!
