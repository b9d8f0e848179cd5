use vstd::prelude::*;
use crate::types::bitboard::{
    bit, single, one_square, sq_of, popcount, group_bits, lemma_single, lemma_and_single, lemma_bits_empty_forall,
};
use crate::types::{Bitboard, Move, Piece, Promotion, Side, Square};
use crate::board::Board;
use crate::board::masks::{self, back_rank_sq, between, king_target, knight_target, pawn_target};
use crate::board::magics::{Sliders, bishop_target, rook_target, ray_hits, ray_in_board, ray_square};
use crate::board::make::{en_passant_victim, en_passant_rank_for};
use crate::moves_generation::attacks;

verus! {

broadcast use group_bits;

pub type Moves = Vec<Move>;

/// `b` is `a` with moves appended.
pub open spec fn extends(a: Seq<Move>, b: Seq<Move>) -> bool {
    &&& a.len() <= b.len()
    &&& forall|k: int| 0 <= k < a.len() ==> #[trigger] b[k] == a[k]
}

/// The list holds a move from square `from` to square `to`.
pub open spec fn has_step(moves: Seq<Move>, from: int, to: int) -> bool {
    exists|k: int| 0 <= k < moves.len() && #[trigger] moves[k].from_sq() == from && moves[k].to_sq() == to
}

/// A move of a list stays in the lists that extend it.
proof fn lemma_has_step_extends(a: Seq<Move>, b: Seq<Move>, from: int, to: int)
    requires
        has_step(a, from, to),
        extends(a, b),
    ensures
        has_step(b, from, to),
{
    let k = choose|k: int| 0 <= k < a.len() && #[trigger] a[k].from_sq() == from && a[k].to_sq() == to;
    assert(b[k] == a[k]);
}

/// The square that a king castling from `from` to `to` crosses.
pub open spec fn castling_crosses(from: int, to: int) -> int {
    if to > from {
        from + 1
    } else {
        from - 1
    }
}

impl Board {
    /// Castling rights are held only with the king on its starting square.
    pub open spec fn castling_ok(self) -> bool {
        &&& (self.castle_kingside[0] || self.castle_queenside[0]) ==> self.pieces[0][4] == Some(
            Piece::King,
        )
        &&& (self.castle_kingside[1] || self.castle_queenside[1]) ==> self.pieces[1][60] == Some(
            Piece::King,
        )
    }

    /// The en passant square, if any, is an empty square of the rank the
    /// side to move captures onto, behind a pawn of the opponent.
    pub open spec fn en_passant_ok(self) -> bool {
        let t = sq_of(self.en_passant.bitboard);
        let side = self.current_color;
        self.en_passant.bitboard != 0 ==> {
            &&& one_square(self.en_passant.bitboard)
            &&& t / 8 == en_passant_rank_for(side)
            &&& self.pieces[0][t] is None
            &&& self.pieces[1][t] is None
            &&& self.pieces[side.spec_opponent().spec_idx()][en_passant_victim(side, t)] == Some(
                Piece::Pawn,
            )
        }
    }

    /// What the move generator relies on: a well formed board with one king
    /// of each side, castling rights only with the king at home, and a
    /// sound en passant square.
    pub open spec fn playable(self) -> bool {
        &&& self.wf()
        &&& one_square(self.kings[0].bitboard)
        &&& one_square(self.kings[1].bitboard)
        &&& self.castling_ok()
        &&& self.en_passant_ok()
    }

    /// A step of the king of the side to move onto a neighbouring square
    /// goes to a square that the opponent does not attack, its sliders
    /// seeing through the square that the king leaves.
    pub open spec fn king_step_safe(self, m: Move) -> bool {
        let s = self.current_color.spec_idx();
        self.pieces[s][m.from_sq()] == Some(Piece::King) && king_target(m.from_sq(), m.to_sq())
            ==> !attacked(self, self.current_color.spec_opponent(), m.to_sq())
    }

    /// A move of the king of the side to move by two squares, castling,
    /// starts from a square that the opponent does not attack, and crosses
    /// and lands on squares that it does not attack.
    pub open spec fn castling_safe(self, m: Move) -> bool {
        let opp = self.current_color.spec_opponent();
        let from = m.from_sq();
        let to = m.to_sq();
        self.pieces[self.current_color.spec_idx()][from] == Some(Piece::King) && !king_target(from, to) ==> {
            &&& !attacked(self, opp, from)
            &&& !attacked(self, opp, castling_crosses(from, to))
            &&& !attacked(self, opp, to)
        }
    }

    /// A piece other than the king of the side to move goes from `from` to
    /// `to` only with its king in check by one piece at most, along its own
    /// way of moving, and onto a square that stops the check (a pawn may
    /// also take en passant the pawn that gives check).
    pub open spec fn answers_check_from(self, from: int, to: int) -> bool {
        let side = self.current_color;
        let s = side.spec_idx();
        let k = sq_of(self.kings[s].bitboard);
        let block = check_block(self, side, k);
        self.pieces[s][from] != Some(Piece::King) ==> {
            &&& check_count(self, side, k) <= 1
            &&& piece_reach(self, from, to)
            &&& (bit(block, to) || (self.pieces[s][from] == Some(Piece::Pawn) && self.en_passant.bitboard != 0
                && to == sq_of(self.en_passant.bitboard) && bit(block, en_passant_victim(side, to))))
        }
    }

    /// A move of a piece other than the king answers a check, as
    /// `answers_check_from` says.
    pub open spec fn answers_check(self, m: Move) -> bool {
        self.answers_check_from(m.from_sq(), m.to_sq())
    }

    /// Every move of the list is accepted by the board, moves a piece of
    /// the side to move and, for a move of the king, keeps it and the
    /// squares it crosses out of attack; a move of another piece answers
    /// any check.
    pub open spec fn all_accepted(self, moves: Seq<Move>) -> bool {
        forall|k: int|
            0 <= k < moves.len() ==> self.accepts(#[trigger] moves[k]) && self.mover(moves[k])
                == self.current_color && self.king_step_safe(moves[k]) && self.castling_safe(moves[k])
                && self.answers_check(moves[k])
    }
}

/// A pawn of `side` steps from `from` to `to`: one or two ranks straight
/// ahead, or one rank ahead and one file aside.
pub open spec fn pawn_step(side: Side, from: int, to: int) -> bool {
    let d = if side == Side::White {
        to - from
    } else {
        from - to
    };
    d == 8 || d == 16 || pawn_target(side, from, to)
}

/// The piece of the side to move on `from`, other than the king, can go to
/// `to`: a pawn's step, a knight's jump, a bishop's or rook's line up to
/// the first piece in the way, a queen's either.
pub open spec fn piece_reach(b: Board, from: int, to: int) -> bool {
    let occ = b.any_piece.bitboard;
    match b.pieces[b.current_color.spec_idx()][from] {
        Some(Piece::Pawn) => pawn_step(b.current_color, from, to),
        Some(Piece::Knight) => knight_target(from, to),
        Some(Piece::Bishop) => bishop_target(from, occ, to),
        Some(Piece::Rook) => rook_target(from, occ, to),
        Some(Piece::Queen) => bishop_target(from, occ, to) || rook_target(from, occ, to),
        _ => true,
    }
}

/// A move of a piece of the side to move other than castling is accepted.
proof fn lemma_plain_move(b: Board, m: Move)
    requires
        b.playable(),
        0 <= m.from_sq() < 64,
        0 <= m.to_sq() < 64,
        b.pieces[b.current_color.spec_idx()][m.from_sq()] is Some,
        b.pieces[b.current_color.spec_idx()][m.to_sq()] is None,
        b.pieces[b.current_color.spec_idx()][m.from_sq()] == Some(Piece::King) ==> king_target(
            m.from_sq(),
            m.to_sq(),
        ),
    ensures
        b.accepts(m),
        b.mover(m) == b.current_color,
{
    let side = b.current_color;
    let s = side.spec_idx();
    let from = m.from_sq();
    let to = m.to_sq();
    assert(b.square_ok(from));
    assert(b.mover(m) == side);
    if b.pieces[s][from] == Some(Piece::King) {
        let k = b.kings[s].bitboard;
        assert(bit(k, from));
        lemma_single(sq_of(k));
        let home = back_rank_sq(side, 4);
        if b.castle_kingside[s] || b.castle_queenside[s] {
            assert(b.square_ok(home));
            assert(bit(k, home));
            assert(from == home);
        }
    }
    if b.captures_en_passant(m) {
        lemma_single(to);
    }
}

/// Appends a move that the board accepts.
fn push_move(board: &Board, moves: &mut Moves, m: Move)
    requires
        board.accepts(m),
        board.mover(m) == board.current_color,
        board.king_step_safe(m),
        board.castling_safe(m),
        board.answers_check(m),
        board.all_accepted(old(moves)@),
    ensures
        final(moves)@ == old(moves)@.push(m),
        board.all_accepted(final(moves)@),
{
    moves.push(m);
    assert forall|k: int| 0 <= k < moves@.len() implies board.accepts(#[trigger] moves@[k])
        && board.mover(moves@[k]) == board.current_color && board.king_step_safe(moves@[k])
        && board.castling_safe(moves@[k]) && board.answers_check(moves@[k]) by {
        if k < old(moves)@.len() {
            assert(moves@[k] == old(moves)@[k]);
        }
    }
}

/// Appends the moves from `from` to each square of `targets`, for a piece
/// other than a king.
fn push_targets(board: &Board, moves: &mut Moves, from: Square, targets: Bitboard)
    requires
        board.playable(),
        from.valid(),
        board.pieces[board.current_color.spec_idx()][from.idx as int] is Some,
        board.pieces[board.current_color.spec_idx()][from.idx as int] != Some(Piece::King),
        forall|t: int|
            0 <= t < 64 && #[trigger] targets.has(t) ==> board.pieces[board.current_color.spec_idx()][t] is None,
        forall|t: int| 0 <= t < 64 && #[trigger] targets.has(t) ==> board.answers_check_from(from.idx as int, t),
        board.all_accepted(old(moves)@),
    ensures
        board.all_accepted(final(moves)@),
        extends(old(moves)@, final(moves)@),
{
    let mut rest = targets;
    while rest.not_empty()
        invariant
            board.playable(),
            from.valid(),
            board.pieces[board.current_color.spec_idx()][from.idx as int] is Some,
            board.pieces[board.current_color.spec_idx()][from.idx as int] != Some(Piece::King),
            forall|t: int| 0 <= t < 64 && #[trigger] rest.has(t) ==> targets.has(t),
            forall|t: int|
                0 <= t < 64 && #[trigger] targets.has(t) ==> board.pieces[board.current_color.spec_idx()][t] is None,
            forall|t: int| 0 <= t < 64 && #[trigger] targets.has(t) ==> board.answers_check_from(from.idx as int, t),
            board.all_accepted(moves@),
            extends(old(moves)@, moves@),
        decreases rest.bitboard,
    {
        let ghost before = rest;
        let to = rest.pop();
        assert(targets.has(to.idx as int));
        let m = Move::from_idx(from, to);
        proof {
            lemma_plain_move(*board, m);
        }
        push_move(board, moves, m);
        assert forall|t: int| 0 <= t < 64 && #[trigger] rest.has(t) implies targets.has(t) by {
            assert(before.has(t));
        }
    }
}


/// A square of the pawns of side index `s` holds a pawn.
proof fn lemma_pawn_at(b: Board, s: int, f: int)
    requires
        b.wf(),
        0 <= s < 2,
        0 <= f < 64,
        bit(b.pawns[s].bitboard, f),
    ensures
        b.pieces[s][f] == Some(Piece::Pawn),
{
    assert(b.square_ok(f));
}

/// The target of a castling move, with the right, the rook in its corner,
/// and free squares for the king and the rook.
pub open spec fn castle_target(b: Board, side: Side, t: int) -> bool {
    let s = side.spec_idx();
    ||| {
        &&& t == back_rank_sq(side, 6)
        &&& b.castle_kingside[s]
        &&& b.pieces[s][back_rank_sq(side, 7)] == Some(Piece::Rook)
        &&& b.pieces[0][back_rank_sq(side, 5)] is None
        &&& b.pieces[1][back_rank_sq(side, 5)] is None
        &&& b.pieces[0][back_rank_sq(side, 6)] is None
        &&& b.pieces[1][back_rank_sq(side, 6)] is None
    }
    ||| {
        &&& t == back_rank_sq(side, 2)
        &&& b.castle_queenside[s]
        &&& b.pieces[s][back_rank_sq(side, 0)] == Some(Piece::Rook)
        &&& b.pieces[0][back_rank_sq(side, 3)] is None
        &&& b.pieces[1][back_rank_sq(side, 3)] is None
        &&& b.pieces[0][back_rank_sq(side, 2)] is None
        &&& b.pieces[1][back_rank_sq(side, 2)] is None
    }
}

/// A castling move of the side to move is accepted.
proof fn lemma_castle_move(b: Board, m: Move)
    requires
        b.playable(),
        0 <= m.from_sq() < 64,
        0 <= m.to_sq() < 64,
        b.pieces[b.current_color.spec_idx()][m.from_sq()] == Some(Piece::King),
        castle_target(b, b.current_color, m.to_sq()),
    ensures
        b.accepts(m),
        b.mover(m) == b.current_color,
{
    let side = b.current_color;
    let s = side.spec_idx();
    let from = m.from_sq();
    let home = back_rank_sq(side, 4);
    assert(b.square_ok(from));
    assert(b.square_ok(home));
    let k = b.kings[s].bitboard;
    lemma_single(sq_of(k));
    assert(bit(k, from));
    assert(bit(k, home));
    assert(from == home);
}

/// Appends the king moves from `from` to the squares of `targets`.
fn push_king_targets(board: &Board, moves: &mut Moves, from: Square, targets: Bitboard)
    requires
        board.playable(),
        from.valid(),
        board.pieces[board.current_color.spec_idx()][from.idx as int] == Some(Piece::King),
        forall|t: int|
            0 <= t < 64 && #[trigger] targets.has(t) ==> board.pieces[board.current_color.spec_idx()][t] is None
                && (king_target(from.idx as int, t) || castle_target(*board, board.current_color, t))
                && (king_target(from.idx as int, t) ==> !attacked(*board, board.current_color.spec_opponent(), t))
                && (!king_target(from.idx as int, t) ==> !attacked(*board, board.current_color.spec_opponent(), from.idx as int)
                    && !attacked(*board, board.current_color.spec_opponent(), castling_crosses(from.idx as int, t))
                    && !attacked(*board, board.current_color.spec_opponent(), t)),
        board.all_accepted(old(moves)@),
    ensures
        board.all_accepted(final(moves)@),
        extends(old(moves)@, final(moves)@),
        forall|t: int| 0 <= t < 64 && #[trigger] targets.has(t) ==> has_step(final(moves)@, from.idx as int, t),
{
    let mut rest = targets;
    while rest.not_empty()
        invariant
            board.playable(),
            from.valid(),
            board.pieces[board.current_color.spec_idx()][from.idx as int] == Some(Piece::King),
            forall|t: int| 0 <= t < 64 && #[trigger] rest.has(t) ==> targets.has(t),
            forall|t: int|
                0 <= t < 64 && #[trigger] targets.has(t) ==> board.pieces[board.current_color.spec_idx()][t] is None
                    && (king_target(from.idx as int, t) || castle_target(*board, board.current_color, t))
                    && (king_target(from.idx as int, t) ==> !attacked(*board, board.current_color.spec_opponent(), t))
                    && (!king_target(from.idx as int, t) ==> !attacked(*board, board.current_color.spec_opponent(), from.idx as int)
                        && !attacked(*board, board.current_color.spec_opponent(), castling_crosses(from.idx as int, t))
                        && !attacked(*board, board.current_color.spec_opponent(), t)),
            board.all_accepted(moves@),
            extends(old(moves)@, moves@),
            forall|t: int|
                0 <= t < 64 && #[trigger] targets.has(t) && !rest.has(t) ==> has_step(moves@, from.idx as int, t),
        decreases rest.bitboard,
    {
        let ghost before = rest;
        let ghost listed = moves@;
        let to = rest.pop();
        assert(targets.has(to.idx as int));
        let m = Move::from_idx(from, to);
        proof {
            if king_target(from.idx as int, to.idx as int) {
                lemma_plain_move(*board, m);
            } else {
                lemma_castle_move(*board, m);
            }
        }
        push_move(board, moves, m);
        proof {
            let last = moves@.len() - 1;
            assert(moves@[last] == m);
            assert forall|t: int| 0 <= t < 64 && #[trigger] targets.has(t) && !rest.has(t) implies has_step(
                moves@,
                from.idx as int,
                t,
            ) by {
                if t == to.idx as int {
                    assert(moves@[last].from_sq() == from.idx as int && moves@[last].to_sq() == t);
                } else {
                    assert(!before.has(t));
                    lemma_has_step_extends(listed, moves@, from.idx as int, t);
                }
            }
        }
        assert forall|t: int| 0 <= t < 64 && #[trigger] rest.has(t) implies targets.has(t) by {
            assert(before.has(t));
        }
    }
    proof {
        assert forall|t: int| 0 <= t < 64 implies !#[trigger] rest.has(t) by {
            crate::types::bitboard::lemma_bit_zero(t);
        }
    }
}


/// Appends the pawn moves onto the squares of `targets`, each from the
/// square `delta` behind it; onto the last rank, one move per promotion.
fn push_pawn_targets(board: &Board, moves: &mut Moves, targets: Bitboard, delta: usize, promote: bool)
    requires
        board.playable(),
        1 <= delta <= 16,
        check_count(*board, board.current_color, sq_of(board.kings[board.current_color.spec_idx()].bitboard)) <= 1,
        forall|t: int|
            0 <= t < 64 && #[trigger] targets.has(t) ==> bit(
                check_block(*board, board.current_color, sq_of(board.kings[board.current_color.spec_idx()].bitboard)),
                t,
            ),
        forall|t: int|
            0 <= t < 64 && #[trigger] targets.has(t) ==> {
                let from = if board.current_color == Side::White {
                    t - delta
                } else {
                    t + delta
                };
                &&& 0 <= from < 64
                &&& board.pieces[board.current_color.spec_idx()][from] == Some(Piece::Pawn)
                &&& board.pieces[board.current_color.spec_idx()][t] is None
                &&& pawn_step(board.current_color, from, t)
            },
        board.all_accepted(old(moves)@),
    ensures
        board.all_accepted(final(moves)@),
        extends(old(moves)@, final(moves)@),
{
    let side = board.current_color;
    let mut rest = targets;
    while rest.not_empty()
        invariant
            board.playable(),
            side == board.current_color,
            1 <= delta <= 16,
            check_count(*board, board.current_color, sq_of(board.kings[board.current_color.spec_idx()].bitboard)) <= 1,
            forall|t: int|
                0 <= t < 64 && #[trigger] targets.has(t) ==> bit(
                    check_block(*board, board.current_color, sq_of(board.kings[board.current_color.spec_idx()].bitboard)),
                    t,
                ),
            forall|t: int| 0 <= t < 64 && #[trigger] rest.has(t) ==> targets.has(t),
            forall|t: int|
                0 <= t < 64 && #[trigger] targets.has(t) ==> {
                    let from = if board.current_color == Side::White {
                        t - delta
                    } else {
                        t + delta
                    };
                    &&& 0 <= from < 64
                    &&& board.pieces[board.current_color.spec_idx()][from] == Some(Piece::Pawn)
                    &&& board.pieces[board.current_color.spec_idx()][t] is None
                    &&& pawn_step(board.current_color, from, t)
                },
            board.all_accepted(moves@),
            extends(old(moves)@, moves@),
        decreases rest.bitboard,
    {
        let ghost before = rest;
        let to = rest.pop();
        assert(targets.has(to.idx as int));
        let from = match side {
            Side::White => Square::from_index(to.idx - delta),
            Side::Black => Square::from_index(to.idx + delta),
        };
        if promote {
            let m = Move::from_idx_prom(from, to, Promotion::Knight);
            proof { lemma_plain_move(*board, m); }
            push_move(board, moves, m);
            let m = Move::from_idx_prom(from, to, Promotion::Bishop);
            proof { lemma_plain_move(*board, m); }
            push_move(board, moves, m);
            let m = Move::from_idx_prom(from, to, Promotion::Rook);
            proof { lemma_plain_move(*board, m); }
            push_move(board, moves, m);
            let m = Move::from_idx_prom(from, to, Promotion::Queen);
            proof { lemma_plain_move(*board, m); }
            push_move(board, moves, m);
        } else {
            let m = Move::from_idx(from, to);
            proof { lemma_plain_move(*board, m); }
            push_move(board, moves, m);
        }
        assert forall|t: int| 0 <= t < 64 && #[trigger] rest.has(t) implies targets.has(t) by {
            assert(before.has(t));
        }
    }
}


/// Whether a square holds a rook.
fn is_rook(p: Option<Piece>) -> (r: bool)
    ensures
        r == (p == Some(Piece::Rook)),
{
    match p {
        Some(Piece::Rook) => true,
        _ => false,
    }
}

/// The squares `t` below `n` where `f` holds, as a mask.
pub open spec fn mask_of(f: spec_fn(int) -> bool, n: nat) -> u64
    decreases n,
{
    if n == 0 {
        0
    } else {
        mask_of(f, (n - 1) as nat) | (if f(n - 1) {
            single(n - 1)
        } else {
            0
        })
    }
}

/// A mask made of the squares where `f` holds has exactly those squares.
proof fn lemma_mask_of(f: spec_fn(int) -> bool, n: nat)
    requires
        n <= 64,
    ensures
        forall|t: int| 0 <= t < 64 ==> #[trigger] bit(mask_of(f, n), t) == (t < n && f(t)),
    decreases n,
{
    if n > 0 {
        lemma_mask_of(f, (n - 1) as nat);
        lemma_single(n - 1);
        let c: u64 = if f(n - 1) {
            single(n - 1)
        } else {
            0
        };
        assert forall|t: int| 0 <= t < 64 implies #[trigger] bit(mask_of(f, n), t) == (t < n && f(t)) by {
            crate::types::bitboard::lemma_bit_or(mask_of(f, (n - 1) as nat), c, t);
            crate::types::bitboard::lemma_bit_single(n - 1, t);
            crate::types::bitboard::lemma_bit_zero(t);
        }
    }
}

/// A mask made of the squares where a predicate holds has exactly those
/// squares, whatever the predicate.
proof fn lemma_masks_of()
    ensures
        forall|f: spec_fn(int) -> bool, t: int| 0 <= t < 64 ==> #[trigger] bit(mask_of(f, 64), t) == f(t),
{
    assert forall|f: spec_fn(int) -> bool, t: int| 0 <= t < 64 implies #[trigger] bit(mask_of(f, 64), t) == f(t) by {
        lemma_mask_of(f, 64);
    }
}

/// The pawns of the opponent of `side` that give check to a king on `k`.
pub open spec fn pawn_checkers(b: Board, side: Side, k: int) -> u64 {
    mask_of(|t: int| bit(b.pawns[side.spec_opponent().spec_idx()].bitboard, t) && pawn_target(side, k, t), 64)
}

/// The knights of the opponent of `side` that give check to a king on `k`.
pub open spec fn knight_checkers(b: Board, side: Side, k: int) -> u64 {
    mask_of(|t: int| bit(b.knights[side.spec_opponent().spec_idx()].bitboard, t) && knight_target(k, t), 64)
}

/// The bishops and queens of the opponent of `side` that give check to a
/// king on `k` along a diagonal.
pub open spec fn diagonal_checkers(b: Board, side: Side, k: int) -> u64 {
    let o = side.spec_opponent().spec_idx();
    mask_of(
        |t: int| bit(b.bishops[o].bitboard | b.queens[o].bitboard, t) && bishop_target(k, b.any_piece.bitboard, t),
        64,
    )
}

/// The rooks and queens of the opponent of `side` that give check to a
/// king on `k` along a rank or a file.
pub open spec fn straight_checkers(b: Board, side: Side, k: int) -> u64 {
    let o = side.spec_opponent().spec_idx();
    mask_of(
        |t: int| bit(b.rooks[o].bitboard | b.queens[o].bitboard, t) && rook_target(k, b.any_piece.bitboard, t),
        64,
    )
}

/// The squares that stop the check of the slider on the lowest square of
/// `checkers`: its square and those between it and the king on `k`;
/// nothing without such a slider.
pub open spec fn blocking_line(k: int, checkers: u64) -> u64 {
    if checkers == 0 {
        0
    } else {
        mask_of(|t: int| t == sq_of(checkers) || between(k, sq_of(checkers), t), 64)
    }
}

/// The count of checks as the generator reckons them: one for any
/// checking pawns, one for any checking knights, one for any diagonal
/// checkers, and one per straight checker.
pub open spec fn check_count(b: Board, side: Side, k: int) -> int {
    (if pawn_checkers(b, side, k) != 0 { 1int } else { 0 }) + (if knight_checkers(b, side, k) != 0 {
        1int
    } else {
        0
    }) + (if diagonal_checkers(b, side, k) != 0 { 1int } else { 0 }) + popcount(straight_checkers(b, side, k))
}

/// The squares that stop the checks: the checking pawns and knights and
/// the lines of the lowest diagonal and straight checkers; every square
/// when there is no check.
#[verifier::opaque]
pub open spec fn check_block(b: Board, side: Side, k: int) -> u64 {
    let m = pawn_checkers(b, side, k) | knight_checkers(b, side, k) | blocking_line(k, diagonal_checkers(b, side, k))
        | blocking_line(k, straight_checkers(b, side, k));
    if m == 0 {
        !0u64
    } else {
        m
    }
}

/// The pieces that give check to the king of `side` on the square of
/// `king`, counted, and the squares that stop every check: the checking
/// piece and the squares between it and the king. Without a check every
/// square stops it.
fn check_mask(board: &Board, side: Side, king: Bitboard) -> (r: (u64, Bitboard))
    requires
        board.wf(),
        king.bitboard != 0,
    ensures
        r.0 == check_count(*board, side, sq_of(king.bitboard)),
        r.1.bitboard == check_block(*board, side, sq_of(king.bitboard)),
{
    let opponent = side.opponent();
    let o = opponent.idx();
    let king_idx = king.peek();
    let ghost k = king_idx.idx as int;
    let ghost os = side.spec_opponent().spec_idx();

    let mut checks: u64 = 0;
    let mut check_mask = Bitboard::new();

    let pawn_attacks = attacks::pawn(side, king_idx);
    let pawns = board.pawns[o].and(pawn_attacks);
    proof {
        lemma_masks_of();
        assert forall|t: int| 0 <= t < 64 implies bit(pawns.bitboard, t) == bit(pawn_checkers(*board, side, k), t) by {
            assert(pawn_attacks.has(t) == pawn_target(side, k, t));
        }
        crate::types::bitboard::lemma_bits_ext(pawns.bitboard, pawn_checkers(*board, side, k));
        crate::types::bitboard::lemma_bit_zero(0);
    }
    if pawns.not_empty() {
        checks = checks + 1;
        check_mask = check_mask.or(pawns);
    }

    let knight_attacks = attacks::knight(king_idx);
    let knights = board.knights[o].and(knight_attacks);
    proof {
        lemma_masks_of();
        assert forall|t: int| 0 <= t < 64 implies bit(knights.bitboard, t) == bit(knight_checkers(*board, side, k), t) by {
            assert(knight_attacks.has(t) == knight_target(k, t));
        }
        crate::types::bitboard::lemma_bits_ext(knights.bitboard, knight_checkers(*board, side, k));
    }
    if knights.not_empty() {
        checks = checks + 1;
        check_mask = check_mask.or(knights);
    }

    let diagonal_attacks = attacks::bishop(&board.sliders, king_idx, board.any_piece);
    let bishops = board.bishops[o].or(board.queens[o]).and(diagonal_attacks);
    proof {
        lemma_masks_of();
        assert forall|t: int| 0 <= t < 64 implies bit(bishops.bitboard, t) == bit(diagonal_checkers(*board, side, k), t) by {
            assert(diagonal_attacks.has(t) == bishop_target(k, board.any_piece.bitboard, t));
        }
        crate::types::bitboard::lemma_bits_ext(bishops.bitboard, diagonal_checkers(*board, side, k));
    }
    if bishops.not_empty() {
        checks = checks + 1;
        let attacker_idx = bishops.peek();
        let between_mask = masks::fill_between_entry(king_idx.idx, attacker_idx.idx);
        let line = between_mask.or(Bitboard::from_square(attacker_idx));
        proof {
            let q = attacker_idx.idx as int;
            lemma_single(q);
            lemma_masks_of();
            assert forall|t: int| 0 <= t < 64 implies bit(line.bitboard, t) == bit(blocking_line(k, bishops.bitboard), t) by {
                assert(between_mask.has(t) == between(k, q, t));
                crate::types::bitboard::lemma_bit_or(between_mask.bitboard, single(q), t);
                crate::types::bitboard::lemma_bit_single(q, t);
                assert(bit(line.bitboard, t) == (between(k, q, t) || t == q));
                assert(q == sq_of(bishops.bitboard));
                assert(bit(blocking_line(k, bishops.bitboard), t) == (t == q || between(k, q, t)));
            }
            crate::types::bitboard::lemma_bits_ext(line.bitboard, blocking_line(k, bishops.bitboard));
        }
        check_mask = check_mask.or(line);
    }

    let straight_attacks = attacks::rook(&board.sliders, king_idx, board.any_piece);
    let rooks = board.rooks[o].or(board.queens[o]).and(straight_attacks);
    proof {
        lemma_masks_of();
        assert forall|t: int| 0 <= t < 64 implies bit(rooks.bitboard, t) == bit(straight_checkers(*board, side, k), t) by {
            assert(straight_attacks.has(t) == rook_target(k, board.any_piece.bitboard, t));
        }
        crate::types::bitboard::lemma_bits_ext(rooks.bitboard, straight_checkers(*board, side, k));
    }
    if rooks.not_empty() {
        checks = checks + (rooks.pieces() as u64);
        let attacker_idx = rooks.peek();
        let between_mask = masks::fill_between_entry(king_idx.idx, attacker_idx.idx);
        let line = between_mask.or(Bitboard::from_square(attacker_idx));
        proof {
            let q = attacker_idx.idx as int;
            lemma_single(q);
            lemma_masks_of();
            assert forall|t: int| 0 <= t < 64 implies bit(line.bitboard, t) == bit(blocking_line(k, rooks.bitboard), t) by {
                assert(between_mask.has(t) == between(k, q, t));
                crate::types::bitboard::lemma_bit_or(between_mask.bitboard, single(q), t);
                crate::types::bitboard::lemma_bit_single(q, t);
                assert(bit(line.bitboard, t) == (between(k, q, t) || t == q));
                assert(q == sq_of(rooks.bitboard));
                assert(bit(blocking_line(k, rooks.bitboard), t) == (t == q || between(k, q, t)));
            }
            crate::types::bitboard::lemma_bits_ext(line.bitboard, blocking_line(k, rooks.bitboard));
        }
        check_mask = check_mask.or(line);
    }
    proof {
        reveal(check_count);
        reveal(check_block);
        let m = pawn_checkers(*board, side, k) | knight_checkers(*board, side, k) | blocking_line(
            k,
            diagonal_checkers(*board, side, k),
        ) | blocking_line(k, straight_checkers(*board, side, k));
        assert forall|t: int| 0 <= t < 64 implies bit(check_mask.bitboard, t) == bit(m, t) by {
            crate::types::bitboard::lemma_bit_zero(t);
        }
        crate::types::bitboard::lemma_bits_ext(check_mask.bitboard, m);
    }

    if check_mask.empty() {
        check_mask = check_mask.not();
    }
    (checks, check_mask)
}

/// The squares that `side` attacks, with the opponent's king taken off the
/// board so that sliding attacks go through it; nothing when that king has
/// no square to go to.
pub fn attack_mask(board: &Board, side: Side) -> (r: Bitboard)
    requires
        board.wf(),
        board.kings[0].bitboard != 0,
        board.kings[1].bitboard != 0,
    ensures
        forall|t: int|
            0 <= t < 64 ==> #[trigger] r.has(t) == (king_can_step(*board, side.spec_opponent())
                && attacked(*board, side, t)),
{
    let opponent = side.opponent();
    let s = side.idx();
    let o = opponent.idx();

    let king_idx = board.kings[o].peek();
    let king_attacks = attacks::king(king_idx);
    let escapes = king_attacks.and(board.occupied[o].not());

    if escapes.empty() {
        proof {
            if king_can_step(*board, opponent) {
                let t = choose|t: int|
                    0 <= t < 64 && #[trigger] king_target(king_idx.idx as int, t) && !bit(
                        board.occupied[o as int].bitboard,
                        t,
                    );
                crate::types::bitboard::lemma_bit_and(king_attacks.bitboard, !board.occupied[o as int].bitboard, t);
                crate::types::bitboard::lemma_bit_not(board.occupied[o as int].bitboard, t);
                crate::types::bitboard::lemma_bit_zero(t);
                assert(king_attacks.has(t));
                assert(bit(escapes.bitboard, t));
                assert(false);
            }
            lemma_bits_empty_forall();
        }
        return Bitboard::new();
    }
    proof {
        if !king_can_step(*board, opponent) {
            assert forall|t: int| 0 <= t < 64 implies !bit(escapes.bitboard, t) by {
                crate::types::bitboard::lemma_bit_and(king_attacks.bitboard, !board.occupied[o as int].bitboard, t);
                crate::types::bitboard::lemma_bit_not(board.occupied[o as int].bitboard, t);
                assert(king_attacks.has(t) == king_target(king_idx.idx as int, t));
            }
            crate::types::bitboard::lemma_bits_empty(escapes.bitboard);
        }
    }
    real_attack_mask(board, side)
}

/// The king of `side`, on the lowest square of its mask, has a square to
/// step to that no piece of its own holds.
pub open spec fn king_can_step(b: Board, side: Side) -> bool {
    exists|t: int|
        0 <= t < 64 && #[trigger] king_target(
            vstd::std_specs::bits::u64_trailing_zeros(b.kings[side.spec_idx()].bitboard) as int,
            t,
        ) && !bit(b.occupied[side.spec_idx()].bitboard, t)
}

/// The king of the side to move stands on a square that the other side
/// attacks.
pub open spec fn king_in_check(b: Board) -> bool {
    exists|t: int|
        0 <= t < 64 && #[trigger] bit(b.kings[b.current_color.spec_idx()].bitboard, t) && attacked(
            b,
            b.current_color.spec_opponent(),
            t,
        )
}


/// The rays from the king of `side` to each attacker of `attackers` that
/// hold exactly one piece of `side`, the pinned one.
fn pin_mask(board: &Board, side: Side, king_idx: Square, attackers: Bitboard) -> (r: Bitboard)
    requires
        king_idx.valid(),
{
    let s = side.idx();
    let mut result = Bitboard::new();
    let mut rest = attackers;
    while rest.not_empty()
        invariant
            king_idx.valid(),
            s < 2,
        decreases rest.bitboard,
    {
        let pinner_idx = rest.pop();
        let pinner = Bitboard::from_square(pinner_idx);
        let ray = masks::fill_between_entry(king_idx.idx, pinner_idx.idx).or(pinner);
        if ray.and(board.occupied[s]).pieces() == 1 {
            result = result.or(ray);
        }
    }
    result
}

/// The rays of pins along ranks and files.
fn parallel_pin_mask(board: &Board, side: Side, king_idx: Square) -> (r: Bitboard)
    requires
        king_idx.valid(),
{
    let o = side.opponent().idx();
    pin_mask(
        board,
        side,
        king_idx,
        attacks::rook(&board.sliders, king_idx, board.occupied[o]).and(board.rooks[o].or(board.queens[o])),
    )
}

/// The rays of pins along diagonals.
fn diagonal_pin_mask(board: &Board, side: Side, king_idx: Square) -> (r: Bitboard)
    requires
        king_idx.valid(),
{
    let o = side.opponent().idx();
    pin_mask(
        board,
        side,
        king_idx,
        attacks::bishop(&board.sliders, king_idx, board.occupied[o]).and(board.bishops[o].or(board.queens[o])),
    )
}

/// Squares a knight on `knight_idx` goes to.
fn generate_knight(knight_idx: Square) -> (r: Bitboard)
    requires
        knight_idx.valid(),
    ensures
        forall|t: int| 0 <= t < 64 ==> #[trigger] r.has(t) == masks::knight_target(knight_idx.idx as int, t),
{
    attacks::knight(knight_idx)
}

/// Squares a rook on `rook_idx` goes to, along its pin if it is pinned.
fn generate_rook(board: &Board, rook_idx: Square, parallel_pins: Bitboard) -> (r: Bitboard)
    requires
        rook_idx.valid(),
    ensures
        forall|t: int|
            0 <= t < 64 && #[trigger] r.has(t) ==> crate::board::magics::rook_target(
                rook_idx.idx as int,
                board.any_piece.bitboard,
                t,
            ),
{
    let a = attacks::rook(&board.sliders, rook_idx, board.any_piece);
    let r = if parallel_pins.and(Bitboard::from_square(rook_idx)).not_empty() {
        a.and(parallel_pins)
    } else {
        a
    };
    assert forall|t: int| 0 <= t < 64 && #[trigger] r.has(t) implies a.has(t) by {}
    r
}

/// Squares a bishop on `bishop_idx` goes to, along its pin if it is pinned.
fn generate_bishop(board: &Board, bishop_idx: Square, diagonal_pin_mask: Bitboard) -> (r: Bitboard)
    requires
        bishop_idx.valid(),
    ensures
        forall|t: int|
            0 <= t < 64 && #[trigger] r.has(t) ==> crate::board::magics::bishop_target(
                bishop_idx.idx as int,
                board.any_piece.bitboard,
                t,
            ),
{
    let a = attacks::bishop(&board.sliders, bishop_idx, board.any_piece);
    let r = if diagonal_pin_mask.and(Bitboard::from_square(bishop_idx)).not_empty() {
        a.and(diagonal_pin_mask)
    } else {
        a
    };
    assert forall|t: int| 0 <= t < 64 && #[trigger] r.has(t) implies a.has(t) by {}
    r
}

/// Squares a queen on `queen_idx` goes to: along a diagonal pin, along a
/// parallel pin, or anywhere when not pinned.
fn generate_queen(
    board: &Board,
    queen_idx: Square,
    parallel_pin_mask: Bitboard,
    diagonal_pin_mask: Bitboard,
) -> (r: Bitboard)
    requires
        queen_idx.valid(),
    ensures
        forall|t: int|
            0 <= t < 64 && #[trigger] r.has(t) ==> crate::board::magics::bishop_target(
                queen_idx.idx as int,
                board.any_piece.bitboard,
                t,
            ) || crate::board::magics::rook_target(queen_idx.idx as int, board.any_piece.bitboard, t),
{
    let mask = Bitboard::from_square(queen_idx);
    let b = attacks::bishop(&board.sliders, queen_idx, board.any_piece);
    let a = attacks::rook(&board.sliders, queen_idx, board.any_piece);
    let r = if mask.and(diagonal_pin_mask).not_empty() {
        b.and(diagonal_pin_mask)
    } else if mask.and(parallel_pin_mask).not_empty() {
        a.and(parallel_pin_mask)
    } else {
        b.or(a)
    };
    assert forall|t: int| 0 <= t < 64 && #[trigger] r.has(t) implies b.has(t) || a.has(t) by {}
    r
}

/// With a castling right held, the king stands on its starting square; when
/// the opponent's attack map there, on the empty square the king crosses
/// and on the square it lands on is clear, none of the three is attacked.
proof fn lemma_castling_unattacked(b: Board, side: Side, enemy: u64, crossed: int, target: int)
    requires
        b.playable(),
        b.castle_kingside[side.spec_idx()] || b.castle_queenside[side.spec_idx()],
        forall|t: int|
            0 <= t < 64 ==> #[trigger] bit(enemy, t) == (king_can_step(b, side) && attacked(
                b,
                side.spec_opponent(),
                t,
            )),
        single(back_rank_sq(side, 4)) & enemy == 0,
        crossed == back_rank_sq(side, 5) || crossed == back_rank_sq(side, 3),
        0 <= target < 64,
        !bit(b.any_piece.bitboard, crossed),
        !bit(enemy, crossed),
        !bit(enemy, target),
    ensures
        sq_of(b.kings[side.spec_idx()].bitboard) == back_rank_sq(side, 4),
        !attacked(b, side.spec_opponent(), back_rank_sq(side, 4)),
        !attacked(b, side.spec_opponent(), crossed),
        !attacked(b, side.spec_opponent(), target),
{
    let s = side.spec_idx();
    let home = back_rank_sq(side, 4);
    let k = b.kings[s].bitboard;
    assert(b.square_ok(home));
    assert(b.square_ok(crossed));
    lemma_single(sq_of(k));
    lemma_single(home);
    assert(bit(k, home));
    assert(sq_of(k) == home);
    assert(bit(single(home) & enemy, home) == bit(enemy, home));
    crate::types::bitboard::lemma_bit_zero(home);
    assert(!bit(enemy, home));
    assert(king_target(vstd::std_specs::bits::u64_trailing_zeros(k) as int, crossed));
    assert(!bit(b.occupied[s].bitboard, crossed));
    assert(king_can_step(b, side));
}

/// Squares the king of `side` on `king_idx` goes to: the squares of
/// `legal_mask` around it that the opponent does not attack, and the
/// castling squares when the right is held, the rook is in its corner,
/// the squares between are free and the king crosses no attacked square.
/// A step to a neighbouring square never goes to an attacked one.
fn generate_king(board: &Board, king_idx: Square, side: Side, legal_mask: Bitboard) -> (r: Bitboard)
    requires
        board.playable(),
        king_idx.valid(),
        board.kings[0].bitboard != 0,
        board.kings[1].bitboard != 0,
        king_idx.idx == sq_of(board.kings[side.spec_idx()].bitboard),
        forall|t: int| 0 <= t < 64 && #[trigger] legal_mask.has(t) ==> board.pieces[side.spec_idx()][t] is None,
    ensures
        forall|t: int|
            0 <= t < 64 && #[trigger] r.has(t) ==> legal_mask.has(t) && (king_target(king_idx.idx as int, t)
                || castle_target(*board, side, t)),
        forall|t: int|
            0 <= t < 64 && #[trigger] r.has(t) && king_target(king_idx.idx as int, t) ==> !attacked(
                *board,
                side.spec_opponent(),
                t,
            ),
        forall|t: int|
            0 <= t < 64 && king_target(king_idx.idx as int, t) && #[trigger] legal_mask.has(t) && !attacked(
                *board,
                side.spec_opponent(),
                t,
            ) ==> r.has(t),
        forall|t: int|
            0 <= t < 64 && #[trigger] r.has(t) && !king_target(king_idx.idx as int, t) ==> {
                &&& !attacked(*board, side.spec_opponent(), king_idx.idx as int)
                &&& !attacked(*board, side.spec_opponent(), castling_crosses(king_idx.idx as int, t))
                &&& !attacked(*board, side.spec_opponent(), t)
            },
{
    let s = side.idx();
    let enemy_attacks = attack_mask(board, side.opponent());
    let king_moves = attacks::king(king_idx);
    let mut targets = king_moves.and(legal_mask).and(enemy_attacks.not());
    let free = board.any_piece.not().and(enemy_attacks.not());
    let legal_free = legal_mask.and(free);
    proof {
        lemma_single(back_rank_sq(side, 0));
        lemma_single(back_rank_sq(side, 1));
        lemma_single(back_rank_sq(side, 2));
        lemma_single(back_rank_sq(side, 3));
        lemma_single(back_rank_sq(side, 5));
        lemma_single(back_rank_sq(side, 6));
        lemma_single(back_rank_sq(side, 7));
        lemma_and_single(free.bitboard, back_rank_sq(side, 5));
        lemma_and_single(free.bitboard, back_rank_sq(side, 3));
        lemma_and_single(legal_free.bitboard, back_rank_sq(side, 6));
        lemma_and_single(legal_free.bitboard, back_rank_sq(side, 2));
        assert(board.square_ok(back_rank_sq(side, 2)));
        assert(board.square_ok(back_rank_sq(side, 3)));
        assert(board.square_ok(back_rank_sq(side, 5)));
        assert(board.square_ok(back_rank_sq(side, 6)));
    }
    let castle_ks = masks::castle_kingside(side);
    let kingside = board.castle_kingside[s] && is_rook(board.check_piece(side, masks::rook_kingside(side)))
        && masks::king_starting_position(side).and(enemy_attacks).empty()
        && masks::castle_kingside_blocker(side).and(free).not_empty()
        && castle_ks.and(legal_free).not_empty();
    let castle_qs = masks::castle_queenside(side);
    let queenside = board.castle_queenside[s] && !board.has_piece(masks::castle_queenside_blocker_knight(side))
        && is_rook(board.check_piece(side, masks::rook_queenside(side)))
        && masks::king_starting_position(side).and(enemy_attacks).empty()
        && masks::castle_queenside_blocker_queen(side).and(free).not_empty()
        && castle_qs.and(legal_free).not_empty();
    let ghost plain = targets;
    if kingside {
        targets = targets.or(castle_ks);
    }
    if queenside {
        targets = targets.or(castle_qs);
    }
    proof {
        let ks = back_rank_sq(side, 6);
        let qs = back_rank_sq(side, 2);
        if kingside {
            assert(castle_target(*board, side, ks));
            assert(legal_mask.has(ks));
        }
        if queenside {
            assert(castle_target(*board, side, qs));
            assert(legal_mask.has(qs));
        }
        assert forall|t: int| 0 <= t < 64 && #[trigger] targets.has(t) implies legal_mask.has(t) && (
        king_target(king_idx.idx as int, t) || castle_target(*board, side, t)) && !enemy_attacks.has(t) by {
            if plain.has(t) {
                assert(king_moves.has(t));
            } else if kingside && t == ks {
                assert(legal_free.has(ks));
                assert(free.has(ks));
            } else {
                assert(queenside && t == qs);
                assert(legal_free.has(qs));
                assert(free.has(qs));
            }
        }
        assert(side.spec_opponent().spec_opponent() == side);
        assert forall|t: int| 0 <= t < 64 implies #[trigger] bit(enemy_attacks.bitboard, t) == (king_can_step(
            *board,
            side,
        ) && attacked(*board, side.spec_opponent(), t)) by {
            assert(enemy_attacks.has(t) == (king_can_step(*board, side.spec_opponent().spec_opponent())
                && attacked(*board, side.spec_opponent(), t)));
        }
        if kingside {
            assert(free.has(back_rank_sq(side, 5)));
            assert(legal_free.has(ks));
            lemma_castling_unattacked(*board, side, enemy_attacks.bitboard, back_rank_sq(side, 5), ks);
        }
        if queenside {
            assert(free.has(back_rank_sq(side, 3)));
            assert(legal_free.has(qs));
            lemma_castling_unattacked(*board, side, enemy_attacks.bitboard, back_rank_sq(side, 3), qs);
        }
        assert forall|t: int| 0 <= t < 64 && #[trigger] targets.has(t) && !king_target(king_idx.idx as int, t)
            implies !attacked(*board, side.spec_opponent(), king_idx.idx as int)
                && !attacked(*board, side.spec_opponent(), castling_crosses(king_idx.idx as int, t))
                && !attacked(*board, side.spec_opponent(), t) by {
            if plain.has(t) {
                assert(king_moves.has(t));
            } else if kingside && t == ks {
            } else {
                assert(queenside && t == qs);
            }
        }
        assert forall|t: int| 0 <= t < 64 && king_target(king_idx.idx as int, t) && #[trigger] legal_mask.has(t)
            && !attacked(*board, side.spec_opponent(), t) implies targets.has(t) by {
            assert(king_moves.has(t));
            assert(!enemy_attacks.has(t));
            assert(plain.has(t));
        }
        assert forall|t: int| 0 <= t < 64 && #[trigger] targets.has(t) && king_target(king_idx.idx as int, t)
            implies !attacked(*board, side.spec_opponent(), t) by {
            assert(side.spec_opponent().spec_opponent() == side);
            if !king_can_step(*board, side) {
                assert(legal_mask.has(t));
                assert(board.square_ok(t));
                assert(!(king_target(sq_of(board.kings[side.spec_idx()].bitboard), t) && !bit(
                    board.occupied[side.spec_idx()].bitboard,
                    t,
                )));
            }
        }
    }
    targets
}


/// The pawns of `pawns` pushed one square forward for `side`.
fn push_pawns(side: Side, pawns: Bitboard) -> (r: Bitboard)
    ensures
        r.bitboard == (if side == Side::White {
            pawns.bitboard << 8u64
        } else {
            pawns.bitboard >> 8u64
        }),
{
    match side {
        Side::White => pawns.shl(8),
        Side::Black => pawns.shr(8),
    }
}

/// Appends the pawn moves of the side to move: captures to the left and
/// to the right, single and double pushes (unless only captures are
/// asked for), promotions, and the capture en passant, each kept to its
/// pin and to the squares that stop a check.
fn generate_pawns(
    board: &Board,
    side: Side,
    moves: &mut Moves,
    parallel_pins: Bitboard,
    diagonal_pins: Bitboard,
    check_mask: Bitboard,
    captures_only: bool,
)
    requires
        board.playable(),
        side == board.current_color,
        check_count(*board, side, sq_of(board.kings[side.spec_idx()].bitboard)) <= 1,
        check_mask.bitboard == check_block(*board, side, sq_of(board.kings[side.spec_idx()].bitboard)),
        board.all_accepted(old(moves)@),
    ensures
        board.all_accepted(final(moves)@),
        extends(old(moves)@, final(moves)@),
{
    let opponent = side.opponent();
    let s = side.idx();
    let o = opponent.idx();

    let pawns = board.pawns[s];
    let pawns_may_take = pawns.and(parallel_pins.not());
    let unpinned = pawns_may_take.and(diagonal_pins.not());
    let pinned = pawns_may_take.and(diagonal_pins);
    let file_a = masks::files(0);
    let file_h = masks::files(7);
    let not_file_a = file_a.not();
    let not_file_h = file_h.not();
    let enemies = check_mask.and(board.occupied[o]);

    let mut attacks_left = match side {
        Side::White => enemies.and(
            unpinned.shl(7).and(not_file_h).or(pinned.shl(7).and(not_file_h).and(diagonal_pins)),
        ),
        Side::Black => enemies.and(
            unpinned.shr(7).and(not_file_a).or(pinned.shr(7).and(not_file_a).and(diagonal_pins)),
        ),
    };
    let mut attacks_right = match side {
        Side::White => enemies.and(
            unpinned.shl(9).and(not_file_a).or(pinned.shl(9).and(not_file_a).and(diagonal_pins)),
        ),
        Side::Black => enemies.and(
            unpinned.shr(9).and(not_file_h).or(pinned.shr(9).and(not_file_h).and(diagonal_pins)),
        ),
    };

    let may_walk = pawns.and(diagonal_pins.not());
    let walk_pinned = may_walk.and(parallel_pins);
    let walk_unpinned = may_walk.and(parallel_pins.not());
    let empty = board.any_piece.not();

    let pawns_walk_unpinned = empty.and(push_pawns(side, walk_unpinned));
    let pawns_walk_pinned = empty.and(parallel_pins).and(push_pawns(side, walk_pinned));
    let mut pawns_walk = pawns_walk_unpinned.or(pawns_walk_pinned).and(check_mask);
    let pawns_double = pawns_walk_unpinned.or(pawns_walk_pinned).and(masks::ranks_relative(2, side));
    let pawns_double_walk = empty.and(check_mask).and(push_pawns(side, pawns_double));

    proof {
        assert forall|t: int| 0 <= t < 64 && #[trigger] attacks_left.has(t) implies {
            let from = if side == Side::White { t - 7 } else { t + 7 };
            &&& 0 <= from < 64
            &&& board.pieces[s as int][from] == Some(Piece::Pawn)
            &&& board.pieces[s as int][t] is None
            &&& pawn_step(side, from, t)
        } by {
            assert(board.square_ok(t));
            if side == Side::White {
                assert(t >= 7 && bit(pawns.bitboard, t - 7));
                lemma_pawn_at(*board, s as int, t - 7);
                assert(bit(not_file_h.bitboard, t));
                assert(!file_h.has(t));
                assert(t % 8 != 7);
                assert((t - 7) % 8 == t % 8 + 1 && (t - 7) / 8 == t / 8 - 1);
                assert(pawn_target(side, t - 7, t));
            } else {
                assert(t + 7 < 64 && bit(pawns.bitboard, t + 7));
                lemma_pawn_at(*board, s as int, t + 7);
                assert(bit(not_file_a.bitboard, t));
                assert(!file_a.has(t));
                assert(t % 8 != 0);
                assert((t + 7) % 8 == t % 8 - 1 && (t + 7) / 8 == t / 8 + 1);
                assert(pawn_target(side, t + 7, t));
            }
        }
        assert forall|t: int| 0 <= t < 64 && #[trigger] attacks_right.has(t) implies {
            let from = if side == Side::White { t - 9 } else { t + 9 };
            &&& 0 <= from < 64
            &&& board.pieces[s as int][from] == Some(Piece::Pawn)
            &&& board.pieces[s as int][t] is None
            &&& pawn_step(side, from, t)
        } by {
            assert(board.square_ok(t));
            if side == Side::White {
                assert(t >= 9 && bit(pawns.bitboard, t - 9));
                lemma_pawn_at(*board, s as int, t - 9);
                assert(bit(not_file_a.bitboard, t));
                assert(!file_a.has(t));
                assert(t % 8 != 0);
                assert((t - 9) % 8 == t % 8 - 1 && (t - 9) / 8 == t / 8 - 1);
                assert(pawn_target(side, t - 9, t));
            } else {
                assert(t + 9 < 64 && bit(pawns.bitboard, t + 9));
                lemma_pawn_at(*board, s as int, t + 9);
                assert(bit(not_file_h.bitboard, t));
                assert(!file_h.has(t));
                assert(t % 8 != 7);
                assert((t + 9) % 8 == t % 8 + 1 && (t + 9) / 8 == t / 8 + 1);
                assert(pawn_target(side, t + 9, t));
            }
        }
        assert forall|t: int| 0 <= t < 64 && #[trigger] pawns_walk.has(t) implies {
            let from = if side == Side::White { t - 8 } else { t + 8 };
            &&& 0 <= from < 64
            &&& board.pieces[s as int][from] == Some(Piece::Pawn)
            &&& board.pieces[s as int][t] is None
            &&& pawn_step(side, from, t)
        } by {
            assert(board.square_ok(t));
            if side == Side::White {
                assert(t >= 8 && bit(pawns.bitboard, t - 8));
                lemma_pawn_at(*board, s as int, t - 8);
            } else {
                assert(t + 8 < 64 && bit(pawns.bitboard, t + 8));
                lemma_pawn_at(*board, s as int, t + 8);
            }
        }
        assert forall|t: int| 0 <= t < 64 && #[trigger] pawns_double_walk.has(t) implies {
            let from = if side == Side::White { t - 16 } else { t + 16 };
            &&& 0 <= from < 64
            &&& board.pieces[s as int][from] == Some(Piece::Pawn)
            &&& board.pieces[s as int][t] is None
            &&& pawn_step(side, from, t)
        } by {
            assert(board.square_ok(t));
            if side == Side::White {
                assert(t >= 8 && bit(pawns_double.bitboard, t - 8));
                assert(t >= 16 && bit(pawns.bitboard, t - 16));
                lemma_pawn_at(*board, s as int, t - 16);
            } else {
                assert(t + 8 < 64 && bit(pawns_double.bitboard, t + 8));
                assert(t + 16 < 64 && bit(pawns.bitboard, t + 16));
                lemma_pawn_at(*board, s as int, t + 16);
            }
        }
    }

    let last = masks::last_rank(side);
    if pawns.and(masks::next_to_last_rank(side)).not_empty() {
        let promotion_attacks_left = attacks_left.and(last);
        let promotion_attacks_right = attacks_right.and(last);
        let promotion_walk = pawns_walk.and(last);
        proof {
            assert forall|t: int| 0 <= t < 64 && #[trigger] promotion_attacks_left.has(t) implies attacks_left.has(t) by {}
            assert forall|t: int| 0 <= t < 64 && #[trigger] promotion_attacks_right.has(t) implies attacks_right.has(t) by {}
            assert forall|t: int| 0 <= t < 64 && #[trigger] promotion_walk.has(t) implies pawns_walk.has(t) by {}
        }
        push_pawn_targets(board, moves, promotion_attacks_left, 7, true);
        push_pawn_targets(board, moves, promotion_attacks_right, 9, true);
        if !captures_only {
            push_pawn_targets(board, moves, promotion_walk, 8, true);
        }
    }

    let not_last = last.not();
    let ghost walk_all = pawns_walk;
    let ghost left_all = attacks_left;
    let ghost right_all = attacks_right;
    pawns_walk = pawns_walk.and(not_last);
    attacks_left = attacks_left.and(not_last);
    attacks_right = attacks_right.and(not_last);
    proof {
        assert forall|t: int| 0 <= t < 64 && #[trigger] attacks_left.has(t) implies left_all.has(t) by {}
        assert forall|t: int| 0 <= t < 64 && #[trigger] attacks_right.has(t) implies right_all.has(t) by {}
        assert forall|t: int| 0 <= t < 64 && #[trigger] pawns_walk.has(t) implies walk_all.has(t) by {}
    }

    push_pawn_targets(board, moves, attacks_left, 7, false);
    push_pawn_targets(board, moves, attacks_right, 9, false);

    if !captures_only {
        push_pawn_targets(board, moves, pawns_walk, 8, false);
        push_pawn_targets(board, moves, pawns_double_walk, 16, false);
    }

    if board.en_passant.empty() {
        return;
    }
    generate_en_passant(board, side, moves, pawns_may_take, diagonal_pins, check_mask);
}

/// Appends the captures en passant of the side to move, unless the
/// capture leaves the king open along its rank.
fn generate_en_passant(
    board: &Board,
    side: Side,
    moves: &mut Moves,
    pawns_may_take: Bitboard,
    diagonal_pins: Bitboard,
    check_mask: Bitboard,
)
    requires
        board.playable(),
        side == board.current_color,
        board.en_passant.bitboard != 0,
        forall|t: int|
            0 <= t < 64 && #[trigger] pawns_may_take.has(t) ==> board.pawns[side.spec_idx()].has(t),
        check_count(*board, side, sq_of(board.kings[side.spec_idx()].bitboard)) <= 1,
        check_mask.bitboard == check_block(*board, side, sq_of(board.kings[side.spec_idx()].bitboard)),
        board.all_accepted(old(moves)@),
    ensures
        board.all_accepted(final(moves)@),
        extends(old(moves)@, final(moves)@),
{
    let opponent = side.opponent();
    let s = side.idx();
    let o = opponent.idx();
    let target = board.en_passant;
    let target_idx = target.peek();
    let ghost t = target_idx.idx as int;
    proof {
        lemma_single(sq_of(target.bitboard));
        crate::types::bitboard::lemma_single_shift(t, 8);
        lemma_single(en_passant_victim(side, t));
    }
    let enemy_pawn = match side {
        Side::White => target.shr(8),
        Side::Black => target.shl(8),
    };
    let enemy_pawn_idx = enemy_pawn.peek();

    if enemy_pawn.or(target).and(check_mask).empty() {
        return;
    }
    let ghost v = en_passant_victim(side, t);
    proof {
        assert(target.bitboard == single(t));
        assert(enemy_pawn.bitboard == single(v));
        if !bit(check_mask.bitboard, t) && !bit(check_mask.bitboard, v) {
            let x = (enemy_pawn.bitboard | target.bitboard) & check_mask.bitboard;
            assert forall|i: int| 0 <= i < 64 implies !bit(x, i) by {}
            crate::types::bitboard::lemma_bits_empty(x);
        }
    }

    let pawn_attacks = attacks::pawn(opponent, target_idx);
    let en_passant_attackers = pawn_attacks.and(pawns_may_take);

    let king_mask = board.kings[s].and(masks::ranks(enemy_pawn_idx.rank()));
    let rook_mask = board.rooks[o].or(board.queens[o]);

    let mut rest = en_passant_attackers;
    while rest.not_empty()
        invariant
            board.playable(),
            side == board.current_color,
            s == side.spec_idx(),
            target_idx.valid(),
            target_idx.idx == sq_of(board.en_passant.bitboard),
            forall|f: int| 0 <= f < 64 && #[trigger] rest.has(f) ==> en_passant_attackers.has(f),
            en_passant_attackers.bitboard == pawn_attacks.bitboard & pawns_may_take.bitboard,
            forall|f: int|
                0 <= f < 64 && #[trigger] pawns_may_take.has(f) ==> board.pawns[side.spec_idx()].has(f),
            forall|f: int|
                0 <= f < 64 && #[trigger] pawn_attacks.has(f) ==> pawn_target(side.spec_opponent(), t, f),
            t == target_idx.idx,
            board.en_passant.bitboard != 0,
            check_count(*board, side, sq_of(board.kings[side.spec_idx()].bitboard)) <= 1,
            bit(check_block(*board, side, sq_of(board.kings[side.spec_idx()].bitboard)), t) || bit(
                check_block(*board, side, sq_of(board.kings[side.spec_idx()].bitboard)),
                en_passant_victim(side, t),
            ),
            board.all_accepted(moves@),
            extends(old(moves)@, moves@),
        decreases rest.bitboard,
    {
        let ghost before = rest;
        let source_idx = rest.pop();
        assert(en_passant_attackers.has(source_idx.idx as int));
        assert(pawns_may_take.has(source_idx.idx as int));
        let source = Bitboard::from_square(source_idx);

        if source.and(diagonal_pins).empty() || target.and(diagonal_pins).not_empty() {
            if king_mask.not_empty() && rook_mask.not_empty() {
                let pawns_mask = enemy_pawn.or(source);
                let king_idx = board.kings[s].peek();
                if attacks::rook(&board.sliders, king_idx, board.any_piece.and(pawns_mask.not())).and(rook_mask).not_empty() {
                    break;
                }
            }
            let m = Move::from_idx(source_idx, target_idx);
            proof {
                lemma_pawn_at(*board, s as int, source_idx.idx as int);
                assert(board.square_ok(target_idx.idx as int));
                lemma_plain_move(*board, m);
                let f = source_idx.idx as int;
                assert(pawn_attacks.has(f));
                assert(pawn_target(side.spec_opponent(), t, f));
                assert(pawn_step(side, f, t));
            }
            push_move(board, moves, m);
        }
        assert forall|f: int| 0 <= f < 64 && #[trigger] rest.has(f) implies en_passant_attackers.has(f) by {
            assert(before.has(f));
        }
    }
}


/// Appends the moves of the pieces of `pieces` with the targets that
/// `kind` gives, kept to `legal_targets`.
fn generate_pieces(
    board: &Board,
    moves: &mut Moves,
    pieces: Bitboard,
    kind: Piece,
    legal_targets: Bitboard,
    parallel_pins: Bitboard,
    diagonal_pins: Bitboard,
)
    requires
        board.playable(),
        kind != Piece::King,
        kind != Piece::Pawn,
        forall|f: int|
            0 <= f < 64 && #[trigger] pieces.has(f) ==> board.pieces[board.current_color.spec_idx()][f]
                == Some(kind),
        forall|t: int|
            0 <= t < 64 && #[trigger] legal_targets.has(t) ==> board.pieces[board.current_color.spec_idx()][t] is None,
        check_count(*board, board.current_color, sq_of(board.kings[board.current_color.spec_idx()].bitboard)) <= 1,
        forall|t: int|
            0 <= t < 64 && #[trigger] legal_targets.has(t) ==> bit(
                check_block(*board, board.current_color, sq_of(board.kings[board.current_color.spec_idx()].bitboard)),
                t,
            ),
        board.all_accepted(old(moves)@),
    ensures
        board.all_accepted(final(moves)@),
        extends(old(moves)@, final(moves)@),
{
    let mut rest = pieces;
    while rest.not_empty()
        invariant
            board.playable(),
            kind != Piece::King,
            kind != Piece::Pawn,
            forall|f: int| 0 <= f < 64 && #[trigger] rest.has(f) ==> pieces.has(f),
            forall|f: int|
                0 <= f < 64 && #[trigger] pieces.has(f) ==> board.pieces[board.current_color.spec_idx()][f]
                    == Some(kind),
            forall|t: int|
                0 <= t < 64 && #[trigger] legal_targets.has(t) ==> board.pieces[board.current_color.spec_idx()][t] is None,
            check_count(*board, board.current_color, sq_of(board.kings[board.current_color.spec_idx()].bitboard)) <= 1,
            forall|t: int|
                0 <= t < 64 && #[trigger] legal_targets.has(t) ==> bit(
                    check_block(*board, board.current_color, sq_of(board.kings[board.current_color.spec_idx()].bitboard)),
                    t,
                ),
            board.all_accepted(moves@),
            extends(old(moves)@, moves@),
        decreases rest.bitboard,
    {
        let ghost before = rest;
        let idx = rest.pop();
        assert(pieces.has(idx.idx as int));
        let reach = match kind {
            Piece::Knight => generate_knight(idx),
            Piece::Bishop => generate_bishop(board, idx, diagonal_pins),
            Piece::Rook => generate_rook(board, idx, parallel_pins),
            _ => generate_queen(board, idx, parallel_pins, diagonal_pins),
        };
        let targets = reach.and(legal_targets);
        assert forall|t: int| 0 <= t < 64 && #[trigger] targets.has(t) implies legal_targets.has(t)
            && board.answers_check_from(idx.idx as int, t) by {
            assert(reach.has(t));
            assert(legal_targets.has(t));
            assert(bit(
                check_block(*board, board.current_color, sq_of(board.kings[board.current_color.spec_idx()].bitboard)),
                t,
            ));
            assert(board.pieces[board.current_color.spec_idx()][idx.idx as int] == Some(kind));
            if kind == Piece::Knight {
                assert(piece_reach(*board, idx.idx as int, t));
            } else if kind == Piece::Bishop {
                assert(piece_reach(*board, idx.idx as int, t));
            } else if kind == Piece::Rook {
                assert(piece_reach(*board, idx.idx as int, t));
            } else {
                assert(kind == Piece::Queen);
                assert(piece_reach(*board, idx.idx as int, t));
            }
        }
        push_targets(board, moves, idx, targets);
        assert forall|f: int| 0 <= f < 64 && #[trigger] rest.has(f) implies pieces.has(f) by {
            assert(before.has(f));
        }
    }
}

/// The king of the side to move may step to `t`: a neighbouring square
/// without a piece of its own side that the opponent does not attack, its
/// sliders seeing through the king.
pub open spec fn safe_king_step(b: Board, t: int) -> bool {
    let s = b.current_color.spec_idx();
    &&& 0 <= t < 64
    &&& king_target(sq_of(b.kings[s].bitboard), t)
    &&& b.pieces[s][t] is None
    &&& !attacked(b, b.current_color.spec_opponent(), t)
}

/// The side to move has only its king left, and the king is in check with
/// no safe step: the side is checkmated.
pub open spec fn bare_king_mated(b: Board) -> bool {
    let s = b.current_color.spec_idx();
    &&& b.playable()
    &&& king_in_check(b)
    &&& forall|t: int| !#[trigger] safe_king_step(b, t)
    &&& forall|i: int| 0 <= i < 64 && #[trigger] b.pieces[s][i] is Some ==> b.pieces[s][i] == Some(Piece::King)
}

/// A checkmated bare king has no move: every list of accepted moves of the
/// side to move that keep the king out of attack is empty.
pub proof fn lemma_bare_king_mated_has_no_move(b: Board, moves: Seq<Move>)
    requires
        bare_king_mated(b),
        b.all_accepted(moves),
    ensures
        moves.len() == 0,
{
    lemma_bare_king_mated_is_checkmated(b);
    lemma_checkmated_has_no_move(b, moves);
}

/// The side to move is checkmated: its king is in check and has no safe
/// step, and no other piece of the side can go to a square that stops the
/// check (one that takes the checking piece or comes between it and the
/// king).
pub open spec fn checkmated(b: Board) -> bool {
    let s = b.current_color.spec_idx();
    &&& b.playable()
    &&& king_in_check(b)
    &&& forall|t: int| !#[trigger] safe_king_step(b, t)
    &&& forall|from: int, to: int|
        0 <= from < 64 && 0 <= to < 64 && b.pieces[s][from] is Some && b.pieces[s][from] != Some(Piece::King)
            && b.pieces[s][to] is None ==> !#[trigger] b.answers_check_from(from, to)
}

/// A bare king checkmated is checkmated.
pub proof fn lemma_bare_king_mated_is_checkmated(b: Board)
    requires
        bare_king_mated(b),
    ensures
        checkmated(b),
{
}

/// A checkmated side has no move: every list of moves that the board
/// accepts, of the side to move, that keep its king out of attack and
/// answer the check, is empty.
pub proof fn lemma_checkmated_has_no_move(b: Board, moves: Seq<Move>)
    requires
        checkmated(b),
        b.all_accepted(moves),
    ensures
        moves.len() == 0,
{
    if moves.len() > 0 {
        let m = moves[0];
        assert(b.accepts(m) && b.mover(m) == b.current_color && b.king_step_safe(m) && b.castling_safe(m)
            && b.answers_check(m));
        m.lemma_move_squares();
        let s = b.current_color.spec_idx();
        let from = m.from_sq();
        let to = m.to_sq();
        if b.pieces[s][from] != Some(Piece::King) {
            assert(b.answers_check_from(from, to));
        } else {
            assert(b.square_ok(from));
            let k = b.kings[s].bitboard;
            lemma_single(sq_of(k));
            assert(bit(k, from));
            assert(from == sq_of(k));
            if king_target(from, to) {
                assert(!attacked(b, b.current_color.spec_opponent(), to));
                assert(safe_king_step(b, to));
            } else {
                assert(!attacked(b, b.current_color.spec_opponent(), from));
                let t = choose|t: int|
                    0 <= t < 64 && #[trigger] bit(k, t) && attacked(b, b.current_color.spec_opponent(), t);
                assert(t == from);
            }
        }
    }
}

/// The moves of the side to move, or only its captures: the king's moves
/// first, then, unless the king is in double check, those of the pawns,
/// knights, bishops, rooks and queens, each kept to its pin and to the
/// squares that stop a check.
fn generate(board: &Board, captures_only: bool) -> (moves: Moves)
    requires
        board.playable(),
    ensures
        board.all_accepted(moves@),
        forall|t: int|
            #[trigger] safe_king_step(*board, t) && (captures_only ==> board.pieces[board.current_color.spec_opponent().spec_idx()][t] is Some)
                ==> has_step(moves@, sq_of(board.kings[board.current_color.spec_idx()].bitboard), t),
{
    let side = board.side_to_move();
    let opponent = side.opponent();
    let s = side.idx();
    let o = opponent.idx();

    let mut moves: Moves = Vec::new();
    let king = board.kings[s];
    let king_idx = king.peek();

    let (check_count, check_mask) = check_mask(board, side, king);

    let parallel_pin_mask = parallel_pin_mask(board, side, king_idx);
    let diagonal_pin_mask = diagonal_pin_mask(board, side, king_idx);

    let mut legal_targets = if captures_only {
        board.occupied[o]
    } else {
        board.occupied[s].not()
    };
    proof {
        assert forall|t: int| 0 <= t < 64 && #[trigger] legal_targets.has(t) implies board.pieces[s as int][t] is None by {
            assert(board.square_ok(t));
        }
        assert(board.square_ok(king_idx.idx as int));
        assert(moves@ =~= Seq::<Move>::empty());
    }

    let king_targets = generate_king(board, king_idx, side, legal_targets);
    push_king_targets(board, &mut moves, king_idx, king_targets);
    let ghost after_king = moves@;
    proof {
        assert forall|t: int| #[trigger] safe_king_step(*board, t) && (captures_only ==> board.pieces[o as int][t] is Some)
            implies has_step(after_king, king_idx.idx as int, t) by {
            assert(board.square_ok(t));
            assert(legal_targets.has(t));
            assert(king_targets.has(t));
        }
    }

    if check_count > 1 {
        return moves;
    }

    let ghost all_targets = legal_targets;
    legal_targets = legal_targets.and(check_mask);
    assert forall|t: int| 0 <= t < 64 && #[trigger] legal_targets.has(t) implies board.pieces[s as int][t] is None
        && bit(check_mask.bitboard, t) by {
        assert(all_targets.has(t));
    }

    generate_pawns(board, side, &mut moves, parallel_pin_mask, diagonal_pin_mask, check_mask, captures_only);

    let knights = board.knights[s].and(parallel_pin_mask.or(diagonal_pin_mask).not());
    let bishops = board.bishops[s].and(parallel_pin_mask.not());
    let rooks = board.rooks[s].and(diagonal_pin_mask.not());
    let queens = board.queens[s].and(parallel_pin_mask.and(diagonal_pin_mask).not());
    proof {
        assert forall|f: int| 0 <= f < 64 && #[trigger] knights.has(f) implies board.pieces[s as int][f] == Some(Piece::Knight) by {
            assert(board.square_ok(f));
        }
        assert forall|f: int| 0 <= f < 64 && #[trigger] bishops.has(f) implies board.pieces[s as int][f] == Some(Piece::Bishop) by {
            assert(board.square_ok(f));
        }
        assert forall|f: int| 0 <= f < 64 && #[trigger] rooks.has(f) implies board.pieces[s as int][f] == Some(Piece::Rook) by {
            assert(board.square_ok(f));
        }
        assert forall|f: int| 0 <= f < 64 && #[trigger] queens.has(f) implies board.pieces[s as int][f] == Some(Piece::Queen) by {
            assert(board.square_ok(f));
        }
    }
    generate_pieces(board, &mut moves, knights, Piece::Knight, legal_targets, parallel_pin_mask, diagonal_pin_mask);
    generate_pieces(board, &mut moves, bishops, Piece::Bishop, legal_targets, parallel_pin_mask, diagonal_pin_mask);
    generate_pieces(board, &mut moves, rooks, Piece::Rook, legal_targets, parallel_pin_mask, diagonal_pin_mask);
    generate_pieces(board, &mut moves, queens, Piece::Queen, legal_targets, parallel_pin_mask, diagonal_pin_mask);
    proof {
        assert(extends(after_king, moves@));
        assert forall|t: int| #[trigger] safe_king_step(*board, t) && (captures_only ==> board.pieces[o as int][t] is Some)
            implies has_step(moves@, king_idx.idx as int, t) by {
            lemma_has_step_extends(after_king, moves@, king_idx.idx as int, t);
        }
    }
    moves
}

/// The legal moves of the side to move. Each moves a piece of that side
/// and is accepted by `make_move`; a step of the king goes to a square the
/// opponent does not attack (see `lemma_king_step_leaves_king_safe`), and
/// castling neither starts from, crosses nor lands on an attacked square.
/// Every such step of the king is in the list.
pub fn generate_all(board: &Board) -> (moves: Moves)
    requires
        board.playable(),
    ensures
        board.all_accepted(moves@),
        forall|t: int|
            #[trigger] safe_king_step(*board, t) ==> has_step(moves@, sq_of(board.kings[board.current_color.spec_idx()].bitboard), t),
{
    generate(board, false)
}

/// The legal captures of the side to move. Each moves a piece of that
/// side and is accepted by `make_move`; a capture by the king takes on a
/// square the opponent does not defend.
pub fn generate_captures(board: &Board) -> (moves: Moves)
    requires
        board.playable(),
    ensures
        board.all_accepted(moves@),
        forall|t: int|
            #[trigger] safe_king_step(*board, t) && board.pieces[board.current_color.spec_opponent().spec_idx()][t] is Some
                ==> has_step(moves@, sq_of(board.kings[board.current_color.spec_idx()].bitboard), t),
{
    generate(board, true)
}


/// A mask holds exactly one square when clearing its lowest square
/// leaves nothing.
proof fn lemma_one_square(k: u64)
    ensures
        one_square(k) == (k != 0 && k & ((k - 1) as u64) == 0),
{
    if k != 0 {
        crate::types::bitboard::lemma_lowest(k);
        crate::types::bitboard::lemma_clear_lowest(k);
        let t = vstd::std_specs::bits::u64_trailing_zeros(k) as int;
        lemma_single(t);
        if k & ((k - 1) as u64) == 0 {
            assert forall|i: int| 0 <= i < 64 implies bit(k, i) == bit(single(t), i) by {
                crate::types::bitboard::lemma_bit_zero(i);
                assert(bit(k & ((k - 1) as u64), i) == (bit(k, i) && i != t));
            }
            crate::types::bitboard::lemma_bits_ext(k, single(t));
        }
        if one_square(k) {
            assert forall|i: int| 0 <= i < 64 implies !#[trigger] bit(k & ((k - 1) as u64), i) by {
                assert(bit(k & ((k - 1) as u64), i) == (bit(k, i) && i != t));
            }
            crate::types::bitboard::lemma_bits_empty(k & ((k - 1) as u64));
        }
    }
}

impl Board {
    /// Whether the board satisfies what the move generator relies on.
    pub fn is_playable(&self) -> (r: bool)
        requires
            self.wf(),
        ensures
            r == self.playable(),
    {
        let k0 = self.kings[0].bitboard;
        let k1 = self.kings[1].bitboard;
        proof {
            lemma_one_square(k0);
            lemma_one_square(k1);
        }
        if k0 == 0 || k0 & (k0 - 1) != 0 || k1 == 0 || k1 & (k1 - 1) != 0 {
            return false;
        }
        if (self.castle_kingside[0] || self.castle_queenside[0]) && !is_king_piece(self.pieces[0][4]) {
            return false;
        }
        if (self.castle_kingside[1] || self.castle_queenside[1]) && !is_king_piece(self.pieces[1][60]) {
            return false;
        }
        let ep = self.en_passant.bitboard;
        if ep == 0 {
            return true;
        }
        proof {
            lemma_one_square(ep);
        }
        if ep & (ep - 1) != 0 {
            return false;
        }
        let t = self.en_passant.peek().idx;
        match self.current_color {
            Side::White => {
                t / 8 == 5 && self.pieces[0][t].is_none() && self.pieces[1][t].is_none()
                    && is_pawn_piece(self.pieces[1][t - 8])
            },
            Side::Black => {
                t / 8 == 2 && self.pieces[0][t].is_none() && self.pieces[1][t].is_none()
                    && is_pawn_piece(self.pieces[0][t + 8])
            },
        }
    }
}

fn is_king_piece(p: Option<Piece>) -> (r: bool)
    ensures
        r == (p == Some(Piece::King)),
{
    match p {
        Some(Piece::King) => true,
        _ => false,
    }
}

fn is_pawn_piece(p: Option<Piece>) -> (r: bool)
    ensures
        r == (p == Some(Piece::Pawn)),
{
    match p {
        Some(Piece::Pawn) => true,
        _ => false,
    }
}


/// A piece of kind `kind` (pawn, knight, diagonal or straight slider) of
/// `side` on square `q` attacks square `t` when `occ` is occupied.
pub open spec fn reaches(kind: int, side: Side, q: int, occ: u64, t: int) -> bool {
    if kind == 0 {
        pawn_target(side, q, t)
    } else if kind == 1 {
        knight_target(q, t)
    } else if kind == 2 {
        bishop_target(q, occ, t)
    } else {
        rook_target(q, occ, t)
    }
}

/// Some square of `mask` holds a piece of kind `kind` that attacks `t`.
pub open spec fn reached_from(mask: u64, kind: int, side: Side, occ: u64, t: int) -> bool {
    exists|q: int| 0 <= q < 64 && bit(mask, q) && #[trigger] reaches(kind, side, q, occ, t)
}

/// Square `t` is attacked by the pieces of `side`: the sliders see
/// through the opponent's king, and the king counted is the one on the
/// lowest square of its mask.
pub open spec fn attacked(b: Board, side: Side, t: int) -> bool {
    let s = side.spec_idx();
    let occ = b.any_piece.bitboard & !b.kings[side.spec_opponent().spec_idx()].bitboard;
    ||| reached_from(b.pawns[s].bitboard, 0, side, occ, t)
    ||| reached_from(b.knights[s].bitboard, 1, side, occ, t)
    ||| reached_from(b.bishops[s].bitboard | b.queens[s].bitboard, 2, side, occ, t)
    ||| reached_from(b.rooks[s].bitboard | b.queens[s].bitboard, 3, side, occ, t)
    ||| king_target(vstd::std_specs::bits::u64_trailing_zeros(b.kings[s].bitboard) as int, t)
}

/// A ray reaches `t` alike under two occupancies that differ at most on
/// `t` itself.
proof fn lemma_ray_hits_same(s: int, dir: int, occ1: u64, occ2: u64, k: int, t: int)
    requires
        0 <= s < 64,
        forall|x: int| 0 <= x < 64 && x != t ==> #[trigger] bit(occ1, x) == bit(occ2, x),
    ensures
        ray_hits(s, dir, occ1, k, t) == ray_hits(s, dir, occ2, k, t),
    decreases 8 - k,
{
    if k < 1 || k > 7 || !ray_in_board(s, dir, k) {
    } else if t == ray_square(s, dir, k) {
    } else {
        let x = ray_square(s, dir, k);
        assert(0 <= x < 64);
        assert(bit(occ1, x) == bit(occ2, x));
        lemma_ray_hits_same(s, dir, occ1, occ2, k + 1, t);
    }
}

/// A ray never comes back to the square it starts from.
proof fn lemma_ray_misses_start(s: int, dir: int, occ: u64, k: int)
    requires
        0 <= s < 64,
        0 <= dir < 8,
        k >= 1,
    ensures
        !ray_hits(s, dir, occ, k, s),
    decreases 8 - k,
{
    if k > 7 || !ray_in_board(s, dir, k) {
    } else {
        assert(s == 8 * (s / 8) + s % 8);
        assert(ray_square(s, dir, k) != s);
        lemma_ray_misses_start(s, dir, occ, k + 1);
    }
}

/// Whether a piece on `q` attacks `t` does not depend on whether `t`
/// itself is occupied.
proof fn lemma_reaches_same(kind: int, side: Side, q: int, occ1: u64, occ2: u64, t: int)
    requires
        0 <= q < 64,
        forall|x: int| 0 <= x < 64 && x != t ==> #[trigger] bit(occ1, x) == bit(occ2, x),
    ensures
        reaches(kind, side, q, occ1, t) == reaches(kind, side, q, occ2, t),
{
    lemma_ray_hits_same(q, 0, occ1, occ2, 1, t);
    lemma_ray_hits_same(q, 1, occ1, occ2, 1, t);
    lemma_ray_hits_same(q, 2, occ1, occ2, 1, t);
    lemma_ray_hits_same(q, 3, occ1, occ2, 1, t);
    lemma_ray_hits_same(q, 4, occ1, occ2, 1, t);
    lemma_ray_hits_same(q, 5, occ1, occ2, 1, t);
    lemma_ray_hits_same(q, 6, occ1, occ2, 1, t);
    lemma_ray_hits_same(q, 7, occ1, occ2, 1, t);
}

/// No piece attacks its own square.
proof fn lemma_reaches_not_self(kind: int, side: Side, t: int, occ: u64)
    requires
        0 <= t < 64,
    ensures
        !reaches(kind, side, t, occ, t),
{
    lemma_ray_misses_start(t, 0, occ, 1);
    lemma_ray_misses_start(t, 1, occ, 1);
    lemma_ray_misses_start(t, 2, occ, 1);
    lemma_ray_misses_start(t, 3, occ, 1);
    lemma_ray_misses_start(t, 4, occ, 1);
    lemma_ray_misses_start(t, 5, occ, 1);
    lemma_ray_misses_start(t, 6, occ, 1);
    lemma_ray_misses_start(t, 7, occ, 1);
}

/// Pieces attack `t` alike from two masks and under two occupancies that
/// differ at most on `t`.
proof fn lemma_reached_from_same(m1: u64, m2: u64, kind: int, side: Side, occ1: u64, occ2: u64, t: int)
    requires
        0 <= t < 64,
        forall|x: int| 0 <= x < 64 && x != t ==> #[trigger] bit(m1, x) == bit(m2, x),
        forall|x: int| 0 <= x < 64 && x != t ==> #[trigger] bit(occ1, x) == bit(occ2, x),
    ensures
        reached_from(m1, kind, side, occ1, t) == reached_from(m2, kind, side, occ2, t),
{
    if reached_from(m1, kind, side, occ1, t) {
        let q = choose|q: int| 0 <= q < 64 && bit(m1, q) && #[trigger] reaches(kind, side, q, occ1, t);
        lemma_reaches_not_self(kind, side, t, occ1);
        lemma_reaches_same(kind, side, q, occ1, occ2, t);
        assert(bit(m1, q) == bit(m2, q));
        assert(reaches(kind, side, q, occ2, t));
    }
    if reached_from(m2, kind, side, occ2, t) {
        let q = choose|q: int| 0 <= q < 64 && bit(m2, q) && #[trigger] reaches(kind, side, q, occ2, t);
        lemma_reaches_not_self(kind, side, t, occ2);
        lemma_reaches_same(kind, side, q, occ1, occ2, t);
        assert(bit(m1, q) == bit(m2, q));
        assert(reaches(kind, side, q, occ1, t));
    }
}

/// A step of the king onto a neighbouring square that the opponent does
/// not attack, its sliders seeing through the square that the king
/// leaves, puts the king on a square that the side to move after the
/// step does not attack: a generated king step never leaves the king in
/// check.
pub proof fn lemma_king_step_leaves_king_safe(b: Board, m: Move, after: Board)
    requires
        b.playable(),
        b.accepts(m),
        b.mover(m) == b.current_color,
        b.king_step_safe(m),
        b.pieces[b.current_color.spec_idx()][m.from_sq()] == Some(Piece::King),
        king_target(m.from_sq(), m.to_sq()),
        b.makes(m, after),
    ensures
        after.pieces[b.current_color.spec_idx()][m.to_sq()] == Some(Piece::King),
        !attacked(after, after.current_color, m.to_sq()),
{
    let side = b.current_color;
    let opp = side.spec_opponent();
    let s = side.spec_idx();
    let o = opp.spec_idx();
    let from = m.from_sq();
    let to = m.to_sq();
    assert(opp.spec_opponent() == side);
    assert(b.square_ok(from));
    assert(b.square_ok(to));
    let k = b.kings[s].bitboard;
    lemma_single(sq_of(k));
    assert(bit(k, from));
    let home = back_rank_sq(side, 4);
    if b.castle_kingside[s] || b.castle_queenside[s] {
        assert(b.square_ok(home));
        assert(bit(k, home));
        assert(from == home);
    }
    assert(!b.castles_kingside(m));
    assert(!b.castles_queenside(m));
    assert(!b.promotes(m));
    assert(!b.captures_en_passant(m));
    assert forall|x: int| 0 <= x < 64 && x != to implies #[trigger] after.pieces[o][x] == b.pieces[o][x] by {
        assert(after.pieces[o][x] == b.placement_after(m)(o, x));
    }
    assert(after.pieces[o][to] == b.placement_after(m)(o, to));
    assert(after.pieces[o][to] is None);
    assert(after.pieces[s][to] == b.placement_after(m)(s, to));
    let occ1 = b.any_piece.bitboard & !b.kings[s].bitboard;
    let occ2 = after.any_piece.bitboard & !after.kings[s].bitboard;
    assert forall|x: int| 0 <= x < 64 && x != to implies #[trigger] bit(occ1, x) == bit(occ2, x) by {
        assert(b.square_ok(x));
        assert(after.square_ok(x));
        assert(after.pieces[s][x] == b.placement_after(m)(s, x));
        assert(after.pieces[o][x] == b.pieces[o][x]);
    }
    assert forall|x: int| 0 <= x < 64 && x != to implies #[trigger] bit(after.pawns[o].bitboard, x) == bit(b.pawns[o].bitboard, x) by {
        assert(b.square_ok(x));
        assert(after.square_ok(x));
        assert(after.pieces[o][x] == b.pieces[o][x]);
    }
    assert forall|x: int| 0 <= x < 64 && x != to implies #[trigger] bit(after.knights[o].bitboard, x) == bit(b.knights[o].bitboard, x) by {
        assert(b.square_ok(x));
        assert(after.square_ok(x));
        assert(after.pieces[o][x] == b.pieces[o][x]);
    }
    assert forall|x: int| 0 <= x < 64 && x != to implies #[trigger] bit(after.bishops[o].bitboard | after.queens[o].bitboard, x) == bit(b.bishops[o].bitboard | b.queens[o].bitboard, x) by {
        assert(b.square_ok(x));
        assert(after.square_ok(x));
        assert(after.pieces[o][x] == b.pieces[o][x]);
    }
    assert forall|x: int| 0 <= x < 64 && x != to implies #[trigger] bit(after.rooks[o].bitboard | after.queens[o].bitboard, x) == bit(b.rooks[o].bitboard | b.queens[o].bitboard, x) by {
        assert(b.square_ok(x));
        assert(after.square_ok(x));
        assert(after.pieces[o][x] == b.pieces[o][x]);
    }
    lemma_reached_from_same(after.pawns[o].bitboard, b.pawns[o].bitboard, 0, opp, occ2, occ1, to);
    lemma_reached_from_same(after.knights[o].bitboard, b.knights[o].bitboard, 1, opp, occ2, occ1, to);
    lemma_reached_from_same(
        after.bishops[o].bitboard | after.queens[o].bitboard,
        b.bishops[o].bitboard | b.queens[o].bitboard,
        2,
        opp,
        occ2,
        occ1,
        to,
    );
    lemma_reached_from_same(
        after.rooks[o].bitboard | after.queens[o].bitboard,
        b.rooks[o].bitboard | b.queens[o].bitboard,
        3,
        opp,
        occ2,
        occ1,
        to,
    );
    let ka = after.kings[o].bitboard;
    let kb = b.kings[o].bitboard;
    if b.pieces[o][to] == Some(Piece::King) {
        assert forall|x: int| 0 <= x < 64 implies !bit(ka, x) by {
            assert(after.square_ok(x));
            if x != to {
                assert(b.square_ok(x));
                lemma_single(sq_of(kb));
                assert(bit(kb, to));
            }
        }
        crate::types::bitboard::lemma_bits_empty(ka);
        vstd::std_specs::bits::axiom_u64_trailing_zeros(ka);
        lemma_single(sq_of(kb));
        assert(bit(kb, to));
    } else {
        assert forall|x: int| 0 <= x < 64 implies bit(ka, x) == bit(kb, x) by {
            assert(after.square_ok(x));
            assert(b.square_ok(x));
        }
        crate::types::bitboard::lemma_bits_ext(ka, kb);
    }
}

/// The squares that the pieces of kind `kind` on the squares of `pieces`
/// attack.
fn attacks_of(sliders: &Sliders, pieces: Bitboard, kind: u8, side: Side, occupied: Bitboard) -> (r: Bitboard)
    requires
        kind < 4,
    ensures
        forall|t: int|
            0 <= t < 64 ==> #[trigger] r.has(t) == reached_from(
                pieces.bitboard,
                kind as int,
                side,
                occupied.bitboard,
                t,
            ),
{
    let mut mask = Bitboard::new();
    let mut rest = pieces;
    proof {
        lemma_bits_empty_forall();
    }
    while rest.not_empty()
        invariant
            kind < 4,
            forall|q: int| 0 <= q < 64 && #[trigger] bit(rest.bitboard, q) ==> bit(pieces.bitboard, q),
            forall|t: int|
                0 <= t < 64 ==> #[trigger] mask.has(t) == exists|q: int|
                    0 <= q < 64 && bit(pieces.bitboard, q) && !bit(rest.bitboard, q) && #[trigger] reaches(
                        kind as int,
                        side,
                        q,
                        occupied.bitboard,
                        t,
                    ),
        decreases rest.bitboard,
    {
        let ghost rest0 = rest;
        let ghost mask0 = mask;
        let idx = rest.pop();
        let a = if kind == 0 {
            attacks::pawn(side, idx)
        } else if kind == 1 {
            attacks::knight(idx)
        } else if kind == 2 {
            attacks::bishop(sliders, idx, occupied)
        } else {
            attacks::rook(sliders, idx, occupied)
        };
        mask = mask.or(a);
        proof {
            let i = idx.idx as int;
            assert forall|t: int| 0 <= t < 64 implies #[trigger] mask.has(t) == exists|q: int|
                0 <= q < 64 && bit(pieces.bitboard, q) && !bit(rest.bitboard, q) && #[trigger] reaches(
                    kind as int,
                    side,
                    q,
                    occupied.bitboard,
                    t,
                ) by {
                crate::types::bitboard::lemma_bit_or(mask0.bitboard, a.bitboard, t);
                assert(a.has(t) == reaches(kind as int, side, i, occupied.bitboard, t));
                assert(rest0.has(i));
                if mask.has(t) {
                    if mask0.has(t) {
                        let q = choose|q: int|
                            0 <= q < 64 && bit(pieces.bitboard, q) && !bit(rest0.bitboard, q)
                                && #[trigger] reaches(kind as int, side, q, occupied.bitboard, t);
                        assert(rest.has(q) == (rest0.has(q) && q != i));
                        assert(!rest.has(q));
                    } else {
                        assert(rest.has(i) == (rest0.has(i) && i != i));
                        assert(bit(pieces.bitboard, i) && !rest.has(i));
                        assert(reaches(kind as int, side, i, occupied.bitboard, t));
                    }
                }
                if exists|q: int|
                    0 <= q < 64 && bit(pieces.bitboard, q) && !bit(rest.bitboard, q) && #[trigger] reaches(
                        kind as int,
                        side,
                        q,
                        occupied.bitboard,
                        t,
                    ) {
                    let q = choose|q: int|
                        0 <= q < 64 && bit(pieces.bitboard, q) && !bit(rest.bitboard, q) && #[trigger] reaches(
                            kind as int,
                            side,
                            q,
                            occupied.bitboard,
                            t,
                        );
                    assert(rest.has(q) == (rest0.has(q) && q != i));
                    if q != i {
                        assert(!rest0.has(q));
                        assert(mask0.has(t));
                    }
                }
            }
        }
    }
    proof {
        assert forall|q: int| 0 <= q < 64 implies !#[trigger] bit(rest.bitboard, q) by {
            crate::types::bitboard::lemma_bit_zero(q);
        }
    }
    mask
}

/// The squares that the pieces of `side` attack, the sliders seeing
/// through the opponent's king.
pub fn real_attack_mask(board: &Board, side: Side) -> (r: Bitboard)
    requires
        board.wf(),
        board.kings[0].bitboard != 0,
        board.kings[1].bitboard != 0,
    ensures
        forall|t: int| 0 <= t < 64 ==> #[trigger] r.has(t) == attacked(*board, side, t),
{
    let opponent = side.opponent();
    let s = side.idx();
    let o = opponent.idx();
    let occupied = board.any_piece.and(board.kings[o].not());
    let pawns = attacks_of(&board.sliders, board.pawns[s], 0, side, occupied);
    let knights = attacks_of(&board.sliders, board.knights[s], 1, side, occupied);
    let diagonal = attacks_of(&board.sliders, board.bishops[s].or(board.queens[s]), 2, side, occupied);
    let straight = attacks_of(&board.sliders, board.rooks[s].or(board.queens[s]), 3, side, occupied);
    let king = attacks::king(board.kings[s].peek());
    let mask = pawns.or(knights).or(diagonal).or(straight).or(king);
    proof {
        assert(occupied.bitboard == board.any_piece.bitboard & !board.kings[side.spec_opponent().spec_idx()].bitboard);
        assert forall|t: int| 0 <= t < 64 implies #[trigger] mask.has(t) == attacked(*board, side, t) by {
            assert(pawns.has(t) == reached_from(board.pawns[side.spec_idx()].bitboard, 0, side, occupied.bitboard, t));
            assert(knights.has(t) == reached_from(board.knights[side.spec_idx()].bitboard, 1, side, occupied.bitboard, t));
            assert(diagonal.has(t) == reached_from(board.bishops[side.spec_idx()].bitboard | board.queens[side.spec_idx()].bitboard, 2, side, occupied.bitboard, t));
            assert(straight.has(t) == reached_from(board.rooks[side.spec_idx()].bitboard | board.queens[side.spec_idx()].bitboard, 3, side, occupied.bitboard, t));
            assert(king.has(t) == king_target(vstd::std_specs::bits::u64_trailing_zeros(board.kings[side.spec_idx()].bitboard) as int, t));
            crate::types::bitboard::lemma_bit_or(pawns.bitboard, knights.bitboard, t);
            crate::types::bitboard::lemma_bit_or(pawns.bitboard | knights.bitboard, diagonal.bitboard, t);
            crate::types::bitboard::lemma_bit_or(
                pawns.bitboard | knights.bitboard | diagonal.bitboard,
                straight.bitboard,
                t,
            );
            crate::types::bitboard::lemma_bit_or(
                pawns.bitboard | knights.bitboard | diagonal.bitboard | straight.bitboard,
                king.bitboard,
                t,
            );
        }
    }
    mask
}

impl Board {
    /// The squares that `side` attacks.
    pub fn get_attacks(&self, side: Side) -> (r: Bitboard)
        requires
            self.wf(),
            self.kings[0].bitboard != 0,
            self.kings[1].bitboard != 0,
        ensures
            forall|t: int| 0 <= t < 64 ==> #[trigger] r.has(t) == attacked(*self, side, t),
    {
        real_attack_mask(self, side)
    }

    /// Whether the king of the side to move is attacked.
    pub fn in_check(&self) -> (r: bool)
        requires
            self.wf(),
            self.kings[0].bitboard != 0,
            self.kings[1].bitboard != 0,
        ensures
            r == king_in_check(*self),
    {
        let side = self.side_to_move();
        let opponent_attacks = self.get_attacks(side.opponent());
        let hit = self.kings[side.idx()].and(opponent_attacks);
        proof {
            let k = self.kings[side.spec_idx()].bitboard;
            if king_in_check(*self) {
                let t = choose|t: int|
                    0 <= t < 64 && #[trigger] bit(k, t) && attacked(*self, side.spec_opponent(), t);
                crate::types::bitboard::lemma_bit_and(k, opponent_attacks.bitboard, t);
                crate::types::bitboard::lemma_bit_zero(t);
                assert(opponent_attacks.has(t));
                assert(bit(hit.bitboard, t));
            } else {
                assert forall|t: int| 0 <= t < 64 implies !bit(hit.bitboard, t) by {
                    crate::types::bitboard::lemma_bit_and(k, opponent_attacks.bitboard, t);
                    assert(opponent_attacks.has(t) == attacked(*self, side.spec_opponent(), t));
                }
                crate::types::bitboard::lemma_bits_empty(hit.bitboard);
            }
        }
        hit.not_empty()
    }

    /// Whether the side to move is in check and has no move.
    pub fn in_checkmate(&self) -> (r: bool)
        requires
            self.playable(),
        ensures
            r ==> king_in_check(*self),
            r ==> forall|t: int| !#[trigger] safe_king_step(*self, t),
            bare_king_mated(*self) ==> r,
            checkmated(*self) ==> r,
    {
        if !self.in_check() {
            false
        } else {
            let moves = generate_all(self);
            proof {
                if bare_king_mated(*self) {
                    lemma_bare_king_mated_has_no_move(*self, moves@);
                }
                if checkmated(*self) {
                    lemma_checkmated_has_no_move(*self, moves@);
                }
                assert forall|t: int| moves.len() == 0 implies !#[trigger] safe_king_step(*self, t) by {
                    if safe_king_step(*self, t) {
                        assert(has_step(moves@, sq_of(self.kings[self.current_color.spec_idx()].bitboard), t));
                    }
                }
            }
            moves.len() == 0
        }
    }
}

} // verus!
