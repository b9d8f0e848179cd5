use vstd::prelude::*;
use crate::board::Board;
use crate::search::weights::{self, WeightSet, spec_acquire, BASE_SCORES};
use crate::types::bitboard::{bit, popcount};
use crate::types::square::{spec_abs, spec_max};
use crate::types::{Bitboard, Piece, Side, Square};

verus! {

/// A score in centipawns, from the point of view of white.
pub type Score = i16;

/// The tempo bonus of the side to move.
pub const SIDE_BONUS_VALUE: Score = 12;

/// Whether the evaluation reports its parts.
pub enum Verbosity {
    Quiet,
    Verbose,
}

/// Division rounding toward zero, as integer division does.
pub open spec fn trunc_div(a: int, b: int) -> int {
    if a >= 0 {
        a / b
    } else {
        -((-a) / b)
    }
}

/// The sign of a side in white's scores.
pub open spec fn spec_multiplier(side: Side) -> int {
    match side {
        Side::White => 1,
        Side::Black => -1,
    }
}

/// The squares of file `f`.
pub open spec fn file_mask(f: int) -> u64 {
    0x0101010101010101u64 << (f as u64)
}

/// The pawns of side index `s` on file `f`.
pub open spec fn file_pawns(b: Board, s: int, f: int) -> int {
    popcount(b.pawns[s].bitboard & file_mask(f)) as int
}

/// The number of files among the first `n` with more than one pawn of
/// side index `s`.
pub open spec fn doubled_count(b: Board, s: int, n: int) -> int
    decreases n,
{
    if n <= 0 {
        0
    } else {
        doubled_count(b, s, n - 1) + (if file_pawns(b, s, n - 1) > 1 {
            1int
        } else {
            0
        })
    }
}

/// The files of side index `s` that hold a pawn of that side with no pawn
/// of that side on a neighbouring file, counted among the first `n`.
pub open spec fn isolated_count(b: Board, s: int, n: int) -> int
    decreases n,
{
    if n <= 0 {
        0
    } else {
        let f = n - 1;
        isolated_count(b, s, n - 1) + (if file_pawns(b, s, f) > 0 && (f == 0 || file_pawns(b, s, f - 1) == 0) && (f == 7
            || file_pawns(b, s, f + 1) == 0) {
            1int
        } else {
            0
        })
    }
}

/// The files next to the king on `file`: three or four files on its wing.
pub open spec fn king_side_mask(file: int) -> u64 {
    if file == 0 {
        file_mask(0) | file_mask(1) | file_mask(2)
    } else if file == 1 || file == 2 {
        file_mask(0) | file_mask(1) | file_mask(2) | file_mask(3)
    } else if file == 3 || file == 4 {
        file_mask(2) | file_mask(3) | file_mask(4) | file_mask(5)
    } else if file == 5 || file == 6 {
        file_mask(4) | file_mask(5) | file_mask(6) | file_mask(7)
    } else {
        file_mask(5) | file_mask(6) | file_mask(7)
    }
}

/// The lowest square of the king of side index `s`.
pub open spec fn king_square(b: Board, s: int) -> int {
    vstd::std_specs::bits::u64_trailing_zeros(b.kings[s].bitboard) as int
}

/// 1 when no pawn stands on the wing of the king of side index `s`.
pub open spec fn no_pawns_flank(b: Board, s: int) -> int {
    if king_side_mask(king_square(b, s) % 8) & (b.pawns[0].bitboard | b.pawns[1].bitboard) == 0 {
        1
    } else {
        0
    }
}

/// King-move distance between two squares.
pub open spec fn square_distance(a: int, c: int) -> int {
    spec_max(spec_abs(a % 8 - c % 8), spec_abs(a / 8 - c / 8))
}

/// The greatest distance from `king` to a pawn of `pawns` among the first
/// `n` squares, 0 with none.
pub open spec fn farthest_pawn(king: int, pawns: u64, n: int) -> int
    decreases n,
{
    if n <= 0 {
        0
    } else {
        let prev = farthest_pawn(king, pawns, n - 1);
        if bit(pawns, n - 1) {
            spec_max(prev, square_distance(king, n - 1))
        } else {
            prev
        }
    }
}

/// The value of the piece of side index `s` on square `i`: its base value
/// and its piece-square value.
pub open spec fn square_score(b: Board, ws: WeightSet, s: int, i: int) -> int {
    match b.pieces[s][i] {
        Some(p) => spec_acquire(ws.base, p) + ws.spec_square_value(p, s, i),
        None => 0,
    }
}

/// The values of the pieces of side index `s` on the first `n` squares.
pub open spec fn side_material(b: Board, ws: WeightSet, s: int, n: int) -> int
    decreases n,
{
    if n <= 0 {
        0
    } else {
        side_material(b, ws, s, n - 1) + square_score(b, ws, s, n - 1)
    }
}

/// The values of all pieces, white's counted up and black's down.
pub open spec fn pieces_score(b: Board, ws: WeightSet) -> int {
    side_material(b, ws, 0, 64) - side_material(b, ws, 1, 64)
}

/// Side `s`'s material over the first `n` squares grows by the value of
/// a piece put on empty square `x` among them, and the other side's is
/// unchanged.
proof fn lemma_side_material_added(b1: Board, b2: Board, ws: WeightSet, s: int, x: int, n: int)
    requires
        0 <= s < 2,
        0 <= x < 64,
        n <= 64,
        b1.pieces[s][x] is None,
        forall|t: int, i: int|
            0 <= t < 2 && 0 <= i < 64 && !(t == s && i == x) ==> #[trigger] b2.pieces[t][i] == b1.pieces[t][i],
    ensures
        side_material(b2, ws, s, n) == side_material(b1, ws, s, n) + (if x < n {
            square_score(b2, ws, s, x)
        } else {
            0
        }),
        side_material(b2, ws, 1 - s, n) == side_material(b1, ws, 1 - s, n),
    decreases n,
{
    if n > 0 {
        lemma_side_material_added(b1, b2, ws, s, x, n - 1);
        assert(b2.pieces[1 - s][n - 1] == b1.pieces[1 - s][n - 1]);
        assert(square_score(b2, ws, 1 - s, n - 1) == square_score(b1, ws, 1 - s, n - 1));
        if n - 1 != x {
            assert(b2.pieces[s][n - 1] == b1.pieces[s][n - 1]);
            assert(square_score(b2, ws, s, n - 1) == square_score(b1, ws, s, n - 1));
        } else {
            assert(square_score(b1, ws, s, n - 1) == 0);
        }
    }
}

/// White's pieces count up and black's count down: putting a piece of side
/// `s` on an empty square changes the material score by the value of that
/// piece there, raised for white and lowered for black.
pub proof fn lemma_material_of_added_piece(b1: Board, b2: Board, ws: WeightSet, s: int, x: int)
    requires
        0 <= s < 2,
        0 <= x < 64,
        b1.pieces[s][x] is None,
        b2.pieces[s][x] is Some,
        forall|t: int, i: int|
            0 <= t < 2 && 0 <= i < 64 && !(t == s && i == x) ==> #[trigger] b2.pieces[t][i] == b1.pieces[t][i],
    ensures
        s == 0 ==> pieces_score(b2, ws) == pieces_score(b1, ws) + square_score(b2, ws, 0, x),
        s == 1 ==> pieces_score(b2, ws) == pieces_score(b1, ws) - square_score(b2, ws, 1, x),
{
    lemma_side_material_added(b1, b2, ws, s, x, 64);
}

/// The base value of the pieces other than pawns and king of side `s`.
pub open spec fn non_pawn_material(b: Board, s: int) -> int {
    spec_acquire(BASE_SCORES, Piece::Knight) * popcount(b.knights[s].bitboard)
        + spec_acquire(BASE_SCORES, Piece::Bishop) * popcount(b.bishops[s].bitboard)
        + spec_acquire(BASE_SCORES, Piece::Rook) * popcount(b.rooks[s].bitboard)
        + spec_acquire(BASE_SCORES, Piece::Queen) * popcount(b.queens[s].bitboard)
}

/// How far into the endgame the position is, from 0 (middle game) to 100
/// (endgame), by the material other than pawns.
pub open spec fn endgame_weight(b: Board) -> int {
    let min_bound = 1000int;
    let max_bound = 2 * 3140 - min_bound;
    let total = non_pawn_material(b, 0) + non_pawn_material(b, 1);
    let pieces = if total < min_bound {
        min_bound
    } else if total > max_bound {
        max_bound
    } else {
        total
    };
    ((max_bound - pieces) * 100) / (max_bound - min_bound)
}

/// The middle-game score: material and piece squares, kings without
/// pawns on their wing, doubled and isolated pawns.
pub open spec fn middle_score(b: Board, ws: WeightSet) -> int {
    pieces_score(b, ws) + (-(no_pawns_flank(b, 0) * 6)) - (-(no_pawns_flank(b, 1) * 6)) + (-(
    doubled_count(b, 0, 8) * 5) - isolated_count(b, 0, 8) * 4) - (-(doubled_count(b, 1, 8) * 5)
        - isolated_count(b, 1, 8) * 4)
}

/// The endgame score: material and piece squares, kings far from their
/// pawns or without pawns on their wing, doubled and isolated pawns.
pub open spec fn end_score(b: Board, ws: WeightSet) -> int {
    pieces_score(b, ws) + (-(farthest_pawn(king_square(b, 0), b.pawns[0].bitboard, 64) * 5) - (
    no_pawns_flank(b, 0) * 30)) - (-(farthest_pawn(king_square(b, 1), b.pawns[1].bitboard, 64) * 5)
        - no_pawns_flank(b, 1) * 30) + (-(doubled_count(b, 0, 8) * 20) - isolated_count(b, 0, 8)
        * 8) - (-(doubled_count(b, 1, 8) * 20) - isolated_count(b, 1, 8) * 8)
}

/// The score between `a` at phase 0 and `b` at phase 100.
pub open spec fn lerp(phase: int, a: int, b: int) -> int {
    trunc_div(a * (100 - phase) + b * phase, 100)
}

/// The evaluation of the board for white: the blend of the middle-game and
/// endgame scores by the endgame weight, plus the tempo bonus of the side
/// to move.
pub open spec fn spec_evaluate(b: Board, mid: WeightSet, end: WeightSet) -> Score {
    let phase = lerp(endgame_weight(b), middle_score(b, mid), end_score(b, end)) as i16;
    (phase as int + SIDE_BONUS_VALUE * spec_multiplier(b.current_color)) as i16
}

fn multiplier(side: Side) -> (r: i32)
    ensures
        r == spec_multiplier(side),
{
    match side {
        Side::White => 1,
        Side::Black => -1,
    }
}

/// The pawns of side index `s` on each file.
fn count_side_pawns(board: &Board, s: usize) -> (r: [u32; 8])
    requires
        s < 2,
    ensures
        forall|f: int| 0 <= f < 8 ==> #[trigger] r[f] as int == file_pawns(*board, s as int, f),
{
    let mut counts = [0u32; 8];
    let mut f: usize = 0;
    while f < 8
        invariant
            f <= 8,
            s < 2,
            forall|k: int| 0 <= k < f ==> #[trigger] counts[k] as int == file_pawns(*board, s as int, k),
        decreases 8 - f,
    {
        let file = crate::board::masks::files(f);
        counts[f] = board.pawns[s].and(file).pieces();
        f = f + 1;
    }
    counts
}

/// The number of files with more than one pawn.
fn doubled_pawns(board: &Board, s: usize, counts: &[u32; 8]) -> (r: i32)
    requires
        s < 2,
        forall|f: int| 0 <= f < 8 ==> #[trigger] counts[f] as int == file_pawns(*board, s as int, f),
    ensures
        r == doubled_count(*board, s as int, 8),
        0 <= r <= 8,
{
    let mut count: i32 = 0;
    let mut f: usize = 0;
    while f < 8
        invariant
            f <= 8,
            s < 2,
            forall|k: int| 0 <= k < 8 ==> #[trigger] counts[k] as int == file_pawns(*board, s as int, k),
            count == doubled_count(*board, s as int, f as int),
            0 <= count <= f,
        decreases 8 - f,
    {
        if counts[f] > 1 {
            count = count + 1;
        }
        f = f + 1;
    }
    count
}

/// The number of files with no pawn on a neighbouring file.
fn isolated_pawns(board: &Board, s: usize, counts: &[u32; 8]) -> (r: i32)
    requires
        s < 2,
        forall|f: int| 0 <= f < 8 ==> #[trigger] counts[f] as int == file_pawns(*board, s as int, f),
    ensures
        r == isolated_count(*board, s as int, 8),
        0 <= r <= 8,
{
    let mut count: i32 = 0;
    let mut f: usize = 0;
    while f < 8
        invariant
            f <= 8,
            s < 2,
            forall|k: int| 0 <= k < 8 ==> #[trigger] counts[k] as int == file_pawns(*board, s as int, k),
            count == isolated_count(*board, s as int, f as int),
            0 <= count <= f,
        decreases 8 - f,
    {
        let left_empty = f == 0 || counts[f - 1] == 0;
        let right_empty = f == 7 || counts[f + 1] == 0;
        if counts[f] > 0 && left_empty && right_empty {
            count = count + 1;
        }
        f = f + 1;
    }
    count
}

/// The files on the wing of a king on `file`.
fn king_side(file: usize) -> (r: Bitboard)
    requires
        file < 8,
    ensures
        r.bitboard == king_side_mask(file as int),
{
    let f0 = crate::board::masks::files(0);
    let f1 = crate::board::masks::files(1);
    let f2 = crate::board::masks::files(2);
    let f3 = crate::board::masks::files(3);
    let f4 = crate::board::masks::files(4);
    let f5 = crate::board::masks::files(5);
    let f6 = crate::board::masks::files(6);
    let f7 = crate::board::masks::files(7);
    if file == 0 {
        f0.or(f1).or(f2)
    } else if file == 1 || file == 2 {
        f0.or(f1).or(f2).or(f3)
    } else if file == 3 || file == 4 {
        f2.or(f3).or(f4).or(f5)
    } else if file == 5 || file == 6 {
        f4.or(f5).or(f6).or(f7)
    } else {
        f5.or(f6).or(f7)
    }
}

/// 1 when no pawn stands on the wing of the king of side index `s`.
fn king_no_pawns_flank(board: &Board, s: usize) -> (r: i32)
    requires
        s < 2,
        board.kings[s as int].bitboard != 0,
    ensures
        r == no_pawns_flank(*board, s as int),
        0 <= r <= 1,
{
    let king = board.kings[s].peek();
    let side = king_side(king.file());
    if side.and(board.pawns[0].or(board.pawns[1])).empty() {
        1
    } else {
        0
    }
}

/// The greatest distance from the king to a pawn of its side.
fn king_distance_to_closest_pawn(board: &Board, king: Square, s: usize) -> (r: i32)
    requires
        s < 2,
        king.valid(),
    ensures
        r == farthest_pawn(king.idx as int, board.pawns[s as int].bitboard, 64),
        0 <= r < 8,
{
    let pawns = board.pawns[s];
    let mut result: i32 = 0;
    let mut i: usize = 0;
    while i < 64
        invariant
            i <= 64,
            king.valid(),
            result == farthest_pawn(king.idx as int, pawns.bitboard, i as int),
            0 <= result < 8,
        decreases 64 - i,
    {
        let sq = Square::from_index(i);
        let mask = Bitboard::from_square(sq);
        proof {
            crate::types::bitboard::lemma_and_single(pawns.bitboard, i as int);
        }
        if pawns.and(mask).not_empty() {
            let d = king.distance(sq) as i32;
            if d > result {
                result = d;
            }
        }
        i = i + 1;
    }
    result
}

/// The values of the pieces of side index `s`.
fn side_pieces_score(board: &Board, weights: &WeightSet, s: usize) -> (r: i32)
    requires
        s < 2,
    ensures
        r == side_material(*board, *weights, s as int, 64),
        -4194304 <= r <= 4194304,
{
    let mut score: i32 = 0;
    let mut i: usize = 0;
    while i < 64
        invariant
            i <= 64,
            s < 2,
            score == side_material(*board, *weights, s as int, i as int),
            -65536 * i <= score <= 65536 * i,
        decreases 64 - i,
    {
        match board.pieces[s][i] {
            Some(piece) => {
                let base = weights::acquire(&weights.base, piece) as i32;
                let value = weights.square_value(piece, s, i) as i32;
                score = score + base + value;
            },
            None => {},
        }
        i = i + 1;
    }
    score
}

/// The base value of the pieces other than pawns and king of side index
/// `s`.
fn non_pawn_pieces_score(board: &Board, s: usize) -> (r: i64)
    requires
        s < 2,
    ensures
        r == non_pawn_material(*board, s as int),
        0 <= r <= 10000000000000,
{
    let knights = board.knights[s].pieces() as i64;
    let bishops = board.bishops[s].pieces() as i64;
    let rooks = board.rooks[s].pieces() as i64;
    let queens = board.queens[s].pieces() as i64;
    let knight_value = weights::acquire(&BASE_SCORES, Piece::Knight) as i64;
    let bishop_value = weights::acquire(&BASE_SCORES, Piece::Bishop) as i64;
    let rook_value = weights::acquire(&BASE_SCORES, Piece::Rook) as i64;
    let queen_value = weights::acquire(&BASE_SCORES, Piece::Queen) as i64;
    assert(knight_value == 300 && bishop_value == 320 && rook_value == 500 && queen_value == 900);
    assert(0 <= 300 * knights + 320 * bishops + 500 * rooks + 900 * queens <= 10000000000000) by (nonlinear_arith)
        requires
            0 <= knights <= 4294967295,
            0 <= bishops <= 4294967295,
            0 <= rooks <= 4294967295,
            0 <= queens <= 4294967295,
    ;
    knight_value * knights + bishop_value * bishops + rook_value * rooks + queen_value * queens
}

/// How far into the endgame the position is, from 0 to 100.
fn compute_endgame_weight(board: &Board) -> (r: i32)
    ensures
        r == endgame_weight(*board),
        0 <= r <= 100,
{
    let min_bound: i64 = 1000;
    let max_bound: i64 = 2 * 3140 - min_bound;
    let total = non_pawn_pieces_score(board, 0) + non_pawn_pieces_score(board, 1);
    let pieces = if total < min_bound {
        min_bound
    } else if total > max_bound {
        max_bound
    } else {
        total
    };
    let w = ((max_bound - pieces) * 100) / (max_bound - min_bound);
    assert(0 <= w <= 100) by (nonlinear_arith)
        requires
            min_bound <= pieces <= max_bound,
            max_bound == 5280,
            min_bound == 1000,
            w == ((max_bound - pieces) * 100) / (max_bound - min_bound),
    ;
    w as i32
}

/// The parts of the evaluation that do not depend on the weights.
pub struct Evaluator {
    pub side_multiplier: i32,
    pub king_no_pawns_flank: [i32; 2],
    pub king_distance: [i32; 2],
    pub doubled_pawns: [i32; 2],
    pub isolated_pawns: [i32; 2],
}

impl Evaluator {
    /// The pawn structure and king safety terms of both sides.
    pub fn new(board: &Board) -> (r: Self)
        requires
            board.kings[0].bitboard != 0,
            board.kings[1].bitboard != 0,
        ensures
            r.side_multiplier == spec_multiplier(board.current_color),
            forall|s: int| 0 <= s < 2 ==> #[trigger] r.king_no_pawns_flank[s] == no_pawns_flank(*board, s),
            forall|s: int|
                0 <= s < 2 ==> #[trigger] r.king_distance[s] == farthest_pawn(
                    king_square(*board, s),
                    board.pawns[s].bitboard,
                    64,
                ),
            forall|s: int| 0 <= s < 2 ==> #[trigger] r.doubled_pawns[s] == doubled_count(*board, s, 8),
            forall|s: int| 0 <= s < 2 ==> #[trigger] r.isolated_pawns[s] == isolated_count(*board, s, 8),
            0 <= r.king_distance[0] < 8,
            0 <= r.king_distance[1] < 8,
            0 <= r.king_no_pawns_flank[0] <= 1,
            0 <= r.king_no_pawns_flank[1] <= 1,
            0 <= r.doubled_pawns[0] <= 8,
            0 <= r.doubled_pawns[1] <= 8,
            0 <= r.isolated_pawns[0] <= 8,
            0 <= r.isolated_pawns[1] <= 8,
    {
        let white_counts = count_side_pawns(board, 0);
        let black_counts = count_side_pawns(board, 1);
        let white_king = board.kings[0].peek();
        let black_king = board.kings[1].peek();
        Self {
            side_multiplier: multiplier(board.side_to_move()),
            king_no_pawns_flank: [king_no_pawns_flank(board, 0), king_no_pawns_flank(board, 1)],
            king_distance: [
                king_distance_to_closest_pawn(board, white_king, 0),
                king_distance_to_closest_pawn(board, black_king, 1),
            ],
            doubled_pawns: [doubled_pawns(board, 0, &white_counts), doubled_pawns(board, 1, &black_counts)],
            isolated_pawns: [isolated_pawns(board, 0, &white_counts), isolated_pawns(board, 1, &black_counts)],
        }
    }

    /// The middle-game score, the endgame score, the endgame weight, their
    /// blend and the tempo bonus.
    pub fn parts(&self, board: &Board, mid: &WeightSet, end: &WeightSet) -> (r: (i32, i32, i32, Score, Score))
        requires
            self.side_multiplier == spec_multiplier(board.current_color),
            forall|s: int| 0 <= s < 2 ==> #[trigger] self.king_no_pawns_flank[s] == no_pawns_flank(*board, s),
            forall|s: int|
                0 <= s < 2 ==> #[trigger] self.king_distance[s] == farthest_pawn(
                    king_square(*board, s),
                    board.pawns[s].bitboard,
                    64,
                ),
            forall|s: int| 0 <= s < 2 ==> #[trigger] self.doubled_pawns[s] == doubled_count(*board, s, 8),
            forall|s: int| 0 <= s < 2 ==> #[trigger] self.isolated_pawns[s] == isolated_count(*board, s, 8),
            0 <= self.king_distance[0] < 8,
            0 <= self.king_distance[1] < 8,
            0 <= self.king_no_pawns_flank[0] <= 1,
            0 <= self.king_no_pawns_flank[1] <= 1,
            0 <= self.doubled_pawns[0] <= 8,
            0 <= self.doubled_pawns[1] <= 8,
            0 <= self.isolated_pawns[0] <= 8,
            0 <= self.isolated_pawns[1] <= 8,
        ensures
            r.0 == middle_score(*board, *mid),
            r.1 == end_score(*board, *end),
            r.2 == endgame_weight(*board),
            r.3 == lerp(endgame_weight(*board), middle_score(*board, *mid), end_score(*board, *end)) as i16,
            r.4 == SIDE_BONUS_VALUE * spec_multiplier(board.current_color),
    {
        let pieces_mid = side_pieces_score(board, mid, 0) - side_pieces_score(board, mid, 1);
        let pieces_end = side_pieces_score(board, end, 0) - side_pieces_score(board, end, 1);
        let score_middle = pieces_mid + (-(self.king_no_pawns_flank[0] * 6)) - (-(self.king_no_pawns_flank[1] * 6))
            + (-(self.doubled_pawns[0] * 5) - self.isolated_pawns[0] * 4)
            - (-(self.doubled_pawns[1] * 5) - self.isolated_pawns[1] * 4);
        let score_end = pieces_end + (-(self.king_distance[0] * 5) - self.king_no_pawns_flank[0] * 30)
            - (-(self.king_distance[1] * 5) - self.king_no_pawns_flank[1] * 30)
            + (-(self.doubled_pawns[0] * 20) - self.isolated_pawns[0] * 8)
            - (-(self.doubled_pawns[1] * 20) - self.isolated_pawns[1] * 8);
        let weight = compute_endgame_weight(board);
        assert(-900000000 <= score_middle * (100 - weight) <= 900000000) by (nonlinear_arith)
            requires
                -9000000 <= score_middle <= 9000000,
                0 <= weight <= 100,
        ;
        assert(-900000000 <= score_end * weight <= 900000000) by (nonlinear_arith)
            requires
                -9000000 <= score_end <= 9000000,
                0 <= weight <= 100,
        ;
        let blend = score_middle * (100 - weight) + score_end * weight;
        let phase = (blend / 100) as i16;
        assert(phase == lerp(weight as int, score_middle as int, score_end as int) as i16);
        let bonus = (SIDE_BONUS_VALUE as i32 * self.side_multiplier) as i16;
        (score_middle, score_end, weight, phase, bonus)
    }
}

/// The evaluation of the board for white with the given weights.
pub fn evaluate_with(board: &Board, mid: &WeightSet, end: &WeightSet) -> (r: Score)
    requires
        board.kings[0].bitboard != 0,
        board.kings[1].bitboard != 0,
    ensures
        r == spec_evaluate(*board, *mid, *end),
{
    let evaluator = Evaluator::new(board);
    let (_, _, _, phase, bonus) = evaluator.parts(board, mid, end);
    ((phase as i32) + (bonus as i32)) as i16
}

/// The evaluation of the board for white with the middle-game and endgame
/// weights. The parts are reported by `Evaluator::parts`.
pub fn evaluate(board: &Board, verbosity: Verbosity) -> (r: Score)
    requires
        board.kings[0].bitboard != 0,
        board.kings[1].bitboard != 0,
    ensures
        exists|mid: WeightSet, end: WeightSet|
            mid.built_from(
                weights::BASE_SCORES,
                weights::PAWN_BASE,
                weights::KNIGHT_BASE,
                weights::BISHOP_BASE,
                weights::ROOK_BASE,
                weights::QUEEN_BASE,
                weights::KING_BASE,
            ) && end.built_from(
                weights::END_SCORES,
                weights::PAWN_END,
                weights::KNIGHT_END,
                weights::BISHOP_END,
                weights::ROOK_END,
                weights::QUEEN_END,
                weights::KING_END,
            ) && r == spec_evaluate(*board, mid, end),
{
    let mid = WeightSet::mid_game();
    let end = WeightSet::end_game();
    evaluate_with(board, &mid, &end)
}

} // verus!
