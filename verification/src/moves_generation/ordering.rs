use vstd::prelude::*;
use crate::board::Board;
use crate::search::search::KILLER_MOVES_STORED;
use crate::types::{Bitboard, Move, Piece, Side};

verus! {

pub type MoveWeight = i32;

pub type Weights = Vec<MoveWeight>;

pub type KillerMoveSet = [Move; KILLER_MOVES_STORED];

/// The weight of the move the table remembers for the position.
pub const HASH_MOVE_VALUE: MoveWeight = 2147483646;

/// The base weight of a capture.
pub const MVV_LVA_VALUE: MoveWeight = 2147482623;

/// The weight of a quiet move that refuted another line at the same depth.
pub const KILLER_MOVE_VALUE: MoveWeight = 2147479551;

/// The value of a piece for ordering captures.
pub open spec fn spec_piece_value(p: Option<Piece>) -> int {
    match p {
        None => 0,
        Some(Piece::Pawn) => 10,
        Some(Piece::Knight) => 30,
        Some(Piece::Bishop) => 32,
        Some(Piece::Rook) => 50,
        Some(Piece::Queen) => 90,
        Some(Piece::King) => 50,
    }
}

/// What the piece cache holds for square `sq` after the first `n` moves:
/// the square is read from the first move that names it, as a source (a
/// piece of `side`) or as a target (a piece of the opponent).
pub open spec fn cached(board: Board, side: Side, moves: Seq<Move>, n: int, sq: int) -> Option<Option<Piece>>
    decreases n,
{
    if n <= 0 {
        None
    } else {
        let prev = cached(board, side, moves, n - 1, sq);
        if prev is Some {
            prev
        } else if moves[n - 1].from_sq() == sq {
            Some(board.pieces[side.spec_idx()][sq])
        } else if moves[n - 1].to_sq() == sq {
            Some(board.pieces[side.spec_opponent().spec_idx()][sq])
        } else {
            None
        }
    }
}

/// The piece the cache gives for square `sq`.
pub open spec fn cached_piece(board: Board, side: Side, moves: Seq<Move>, sq: int) -> Option<Piece> {
    match cached(board, side, moves, moves.len() as int, sq) {
        Some(p) => p,
        None => None,
    }
}

/// The ordering weight of `m`: the table's move first, then captures by
/// most valuable victim and least valuable attacker, then killer moves,
/// then the rest.
pub open spec fn move_weight(
    board: Board,
    moves: Seq<Move>,
    hash_move: Option<Move>,
    killers: Seq<Move>,
    m: Move,
) -> int {
    let side = board.current_color;
    if hash_move == Some(m) {
        HASH_MOVE_VALUE as int
    } else if board.occupied[side.spec_opponent().spec_idx()].has(m.to_sq()) {
        MVV_LVA_VALUE + 10 * spec_piece_value(cached_piece(board, side, moves, m.to_sq()))
            - spec_piece_value(cached_piece(board, side, moves, m.from_sq()))
    } else if killers.contains(m) {
        KILLER_MOVE_VALUE as int
    } else {
        0
    }
}

/// The ordering weights of `moves`, one per move.
pub fn order(board: &Board, moves: &Vec<Move>, hash_move: Option<Move>, killer_moves: &KillerMoveSet) -> (r: Weights)
    ensures
        r@.len() == moves@.len(),
        forall|i: int|
            0 <= i < moves@.len() ==> #[trigger] r@[i] == move_weight(
                *board,
                moves@,
                hash_move,
                killer_moves@,
                moves@[i],
            ),
{
    let side = board.side_to_move();
    let attacks = board.occupied[side.opponent().idx()];
    let pieces = cache_piece_values(board, side, moves);
    let mut result: Weights = Vec::new();
    let mut i: usize = 0;
    while i < moves.len()
        invariant
            i <= moves@.len(),
            side == board.current_color,
            attacks == board.occupied[side.spec_opponent().spec_idx()],
            forall|sq: int| 0 <= sq < 64 ==> #[trigger] pieces[sq] == cached_piece(*board, side, moves@, sq),
            result@.len() == i,
            forall|k: int|
                0 <= k < i ==> #[trigger] result@[k] == move_weight(
                    *board,
                    moves@,
                    hash_move,
                    killer_moves@,
                    moves@[k],
                ),
        decreases moves@.len() - i,
    {
        let m = moves[i];
        let w = match hash_move {
            Some(hashed) => if hashed == m {
                HASH_MOVE_VALUE
            } else {
                mvv_lva(&m, attacks, &pieces, killer_moves)
            },
            None => mvv_lva(&m, attacks, &pieces, killer_moves),
        };
        let to_sq = m.get_to();
        let from_sq = m.get_from();
        proof {
            assert(pieces[m.to_sq()] == cached_piece(*board, side, moves@, m.to_sq()));
            assert(pieces[m.from_sq()] == cached_piece(*board, side, moves@, m.from_sq()));
        }
        assert(w == move_weight(*board, moves@, hash_move, killer_moves@, moves@[i as int]));
        result.push(w);
        i = i + 1;
    }
    result
}

/// The weight of `m` when it is not the table's move.
fn mvv_lva(m: &Move, attacks: Bitboard, pieces: &[Option<Piece>; 64], killer_moves: &KillerMoveSet) -> (r: MoveWeight)
    ensures
        r == (if attacks.has(m.to_sq()) {
            MVV_LVA_VALUE + 10 * spec_piece_value(pieces[m.to_sq()]) - spec_piece_value(
                pieces[m.from_sq()],
            )
        } else if killer_moves@.contains(*m) {
            KILLER_MOVE_VALUE as int
        } else {
            0
        }),
{
    let to = m.get_to();
    let target_mask = Bitboard::from_square(to);
    proof {
        crate::types::bitboard::lemma_and_single(attacks.bitboard, to.idx as int);
    }
    if target_mask.and(attacks).not_empty() {
        let defender_value = piece_value(pieces[to.idx]);
        let attacker_value = piece_value(pieces[m.get_from().idx]);
        MVV_LVA_VALUE + defender_value * 10 - attacker_value
    } else {
        if contains_move(killer_moves, m) {
            KILLER_MOVE_VALUE
        } else {
            0
        }
    }
}

/// Whether `m` is one of the killer moves.
fn contains_move(killer_moves: &KillerMoveSet, m: &Move) -> (r: bool)
    ensures
        r == killer_moves@.contains(*m),
{
    let mut i: usize = 0;
    while i < KILLER_MOVES_STORED
        invariant
            i <= KILLER_MOVES_STORED,
            killer_moves@.len() == KILLER_MOVES_STORED,
            forall|k: int| 0 <= k < i ==> killer_moves@[k] != *m,
        decreases KILLER_MOVES_STORED - i,
    {
        if killer_moves[i] == *m {
            assert(killer_moves@[i as int] == *m);
            return true;
        }
        i = i + 1;
    }
    false
}

/// The value of a piece for ordering captures.
fn piece_value(p: Option<Piece>) -> (r: MoveWeight)
    ensures
        r == spec_piece_value(p),
{
    match p {
        None => 0,
        Some(Piece::Pawn) => 10,
        Some(Piece::Knight) => 30,
        Some(Piece::Bishop) => 32,
        Some(Piece::Rook) => 50,
        Some(Piece::Queen) => 90,
        Some(Piece::King) => 50,
    }
}

/// The pieces on the squares that the moves name, read once per square.
fn cache_piece_values(board: &Board, side: Side, moves: &Vec<Move>) -> (r: [Option<Piece>; 64])
    ensures
        forall|sq: int| 0 <= sq < 64 ==> #[trigger] r[sq] == cached_piece(*board, side, moves@, sq),
{
    let mut verified = [false; 64];
    let mut pieces: [Option<Piece>; 64] = [None; 64];
    let s = side.idx();
    let o = side.opponent().idx();
    let mut i: usize = 0;
    while i < moves.len()
        invariant
            i <= moves@.len(),
            s == side.spec_idx(),
            o == side.spec_opponent().spec_idx(),
            forall|sq: int|
                0 <= sq < 64 ==> #[trigger] verified[sq] == (cached(*board, side, moves@, i as int, sq) is Some),
            forall|sq: int|
                0 <= sq < 64 ==> #[trigger] pieces[sq] == match cached(*board, side, moves@, i as int, sq) {
                    Some(p) => p,
                    None => None,
                },
        decreases moves@.len() - i,
    {
        let m = moves[i];
        let source = m.get_from().idx;
        let target = m.get_to().idx;
        if !verified[source] {
            pieces[source] = board.pieces[s][source];
            verified[source] = true;
        }
        if !verified[target] {
            pieces[target] = board.pieces[o][target];
            verified[target] = true;
        }
        i = i + 1;
    }
    pieces
}

} // verus!
