use vstd::prelude::*;
use crate::search::eval::Score;
use crate::types::Piece;

verus! {

/// Values per piece kind other than the king: pawn, knight, bishop, rook,
/// queen.
pub type PieceTable = [Score; 5];

/// Piece-square values for the 64 squares.
pub type Weights = [Score; 64];

/// Piece-square values for the left half of the board, mirrored to the
/// right half.
pub type HalfWeights = [Score; 32];

/// Piece-square values per side.
pub type WeightsPerSide = [Weights; 2];

pub const BASE_SCORES: PieceTable = [50, 300, 320, 500, 900];

pub const END_SCORES: PieceTable = [80, 300, 320, 500, 900];

/// The material of the pieces other than pawns and king at the start.
pub const SIDE_STARTING_MATERIAL: Score = 3140;

pub const PAWN_BASE: Weights = [
       0,    0,    0,    0,    0,    0,    0,    0,
      -3,    3,   -1,   -6,    2,   -8,    5,   -4,
       2,   -6,   -3,   11,   -4,   -2,   -8,   -4,
       6,    0,   -6,    0,    5,   -1,   -6,    5,
      -2,  -12,    3,   10,   20,    8,    2,   -4,
      -4,   -8,    6,    7,   16,   10,    2,  -11,
       1,    1,    5,    9,    8,    9,    3,   -2,
       0,    0,    0,    0,    0,    0,    0,    0,
];

pub const PAWN_END: Weights = [
       0,    0,    0,    0,    0,    0,    0,    0,
       0,   -5,    6,   10,   13,    9,    2,    3,
      14,   10,   11,   14,   15,    3,    3,    6,
       5,    2,    2,   -2,   -2,   -2,    7,    5,
       3,   -1,   -4,   -2,   -6,   -6,   -5,   -4,
      -5,   -5,   -5,    2,    2,    1,   -3,   -2,
      -5,   -3,    5,    0,    7,    3,   -2,   -9,
       0,    0,    0,    0,    0,    0,    0,    0,
];

pub const KNIGHT_BASE: HalfWeights = [
     -77,  -32,  -22,  -10,
     -26,  -10,    2,   14,
      -3,    8,   22,   21,
     -13,    5,   17,   20,
     -13,    3,   15,   19,
     -23,   -7,    2,    5,
     -30,  -16,  -10,   -6,
     -67,  -35,  -28,  -28,
];

pub const KNIGHT_END: HalfWeights = [
     -35,  -31,  -20,   -6,
     -24,  -18,  -18,    4,
     -18,  -15,   -6,    6,
     -16,   -6,    3,   13,
     -12,   -1,    5,   35,
     -14,   -9,   -3,   10,
     -24,  -19,   -6,    3,
     -34,  -22,  -17,   -7,
];

pub const KING_BASE: HalfWeights = [
      23,   35,   18,    0,
      35,   48,   26,   13,
      49,   58,   32,   12,
      61,   72,   42,   28,
      66,   76,   55,   39,
      78,  103,   67,   48,
     110,  120,   93,   71,
     110,  130,  110,   80,
];

pub const KING_END: HalfWeights = [
       5,   24,   30,   32,
      19,   48,   46,   52,
      36,   68,   74,   76,
      39,   67,   80,   80,
      41,   62,   68,   68,
      35,   52,   67,   70,
      21,   40,   53,   54,
       0,   18,   34,   30,
];

pub const BISHOP_BASE: HalfWeights = [
     -19,    0,   -5,   -9,
      -7,   -5,    2,    0,
      -6,    2,    0,    4,
      -5,   11,    8,   12,
      -2,    4,    9,   15,
      -3,    8,   -2,   -7,
      -6,    3,    7,    2,
     -21,   -2,   -3,   -9,
];

pub const BISHOP_END: HalfWeights = [
     -16,  -14,  -12,   -8,
     -10,   -7,   -1,    0,
     -10,    2,    1,    2,
      -6,    0,   -5,    6,
      -7,   -2,    0,    6,
      -5,    0,   -1,    4,
     -13,   -5,   -6,    0,
     -20,  -11,  -13,   -4,
];

pub const ROOK_BASE: HalfWeights = [
      -7,   -8,    0,    4,
       0,    5,    6,    7,
      -9,   -1,    2,    5,
     -11,   -6,   -2,    1,
      -5,   -2,   -1,   -2,
     -10,   -4,    0,    1,
      -8,   -5,   -3,    2,
     -31,   -8,   -5,   -2,
];

pub const ROOK_END: HalfWeights = [
       7,    0,    7,    5,
       1,    2,    7,   -2,
       2,    0,   -2,    4,
      -1,    3,    3,   -2,
      -2,    0,   -3,    3,
       2,   -3,   -1,   -2,
      -4,   -3,    0,   -1,
      -3,   -5,   -4,   -3,
];

pub const QUEEN_BASE: HalfWeights = [
      -1,   -1,    0,   -1,
      -2,    2,    4,    3,
      -1,    4,    2,    3,
       0,    5,    4,    2,
       1,    2,    3,    3,
      -1,    2,    5,    2,
      -1,    2,    3,    4,
       1,   -2,   -2,    1,
];

pub const QUEEN_END: HalfWeights = [
     -25,  -17,  -14,  -12,
     -17,   -9,   -8,   -3,
     -13,   -6,   -4,    0,
     -10,   -2,    3,    7,
      -8,   -1,    4,    8,
     -13,   -6,   -3,    1,
     -18,  -10,   -7,   -1,
     -23,  -19,  -15,   -9,
];

/// The value in `pt` of a piece kind; a king has none.
pub open spec fn spec_acquire(pt: PieceTable, piece: Piece) -> Score {
    match piece {
        Piece::King => 0,
        Piece::Pawn => pt[0],
        Piece::Knight => pt[1],
        Piece::Bishop => pt[2],
        Piece::Rook => pt[3],
        Piece::Queen => pt[4],
    }
}

/// The value in `pt` of a piece kind; a king has none.
pub fn acquire(pt: &PieceTable, piece: Piece) -> (r: Score)
    ensures
        r == spec_acquire(*pt, piece),
{
    match piece {
        Piece::King => 0,
        Piece::Pawn => pt[0],
        Piece::Knight => pt[1],
        Piece::Bishop => pt[2],
        Piece::Rook => pt[3],
        Piece::Queen => pt[4],
    }
}

/// The square of a table, written from the eighth rank down, that holds
/// the value for side index `side` on square `idx`: white reads it upside
/// down.
pub open spec fn table_index(side: int, idx: int) -> int {
    if side == 0 {
        (7 - idx / 8) * 8 + idx % 8
    } else {
        idx
    }
}

/// The entry of a half table for square `i`, mirrored from the left half.
pub open spec fn half_index(i: int) -> int {
    (i / 8) * 4 + (if i % 8 < 4 {
        i % 8
    } else {
        7 - i % 8
    })
}

/// Base values and piece-square values of all piece kinds, per side.
#[derive(Copy, Clone)]
pub struct WeightSet {
    pub base: PieceTable,
    pub pawn: WeightsPerSide,
    pub knight: WeightsPerSide,
    pub bishop: WeightsPerSide,
    pub rook: WeightsPerSide,
    pub queen: WeightsPerSide,
    pub king: WeightsPerSide,
}

/// The piece-square values per side from a full table.
pub open spec fn doubled(x: Weights, t: WeightsPerSide) -> bool {
    forall|s: int, i: int| 0 <= s < 2 && 0 <= i < 64 ==> #[trigger] t[s][i] == x[table_index(s, i)]
}

/// The piece-square values per side from a half table.
pub open spec fn doubled_half(x: HalfWeights, t: WeightsPerSide) -> bool {
    forall|s: int, i: int|
        0 <= s < 2 && 0 <= i < 64 ==> #[trigger] t[s][i] == x[half_index(table_index(s, i))]
}

/// Builds the per-side table of a full table.
fn double_weights(x: &Weights) -> (r: WeightsPerSide)
    ensures
        doubled(*x, r),
{
    let mut white: Weights = [0; 64];
    let mut i: usize = 0;
    while i < 64
        invariant
            i <= 64,
            forall|k: int| 0 <= k < i ==> #[trigger] white[k] == x[table_index(0, k)],
        decreases 64 - i,
    {
        white[i] = x[(7 - i / 8) * 8 + i % 8];
        i = i + 1;
    }
    [white, *x]
}

/// Builds the per-side table of a half table.
fn double_half_weights(x: &HalfWeights) -> (r: WeightsPerSide)
    ensures
        doubled_half(*x, r),
{
    let mut white: Weights = [0; 64];
    let mut black: Weights = [0; 64];
    let mut i: usize = 0;
    while i < 64
        invariant
            i <= 64,
            forall|k: int| 0 <= k < i ==> #[trigger] white[k] == x[half_index(table_index(0, k))],
            forall|k: int| 0 <= k < i ==> #[trigger] black[k] == x[half_index(table_index(1, k))],
        decreases 64 - i,
    {
        let w = (7 - i / 8) * 8 + i % 8;
        let wf = w % 8;
        white[i] = x[(w / 8) * 4 + if wf < 4 { wf } else { 7 - wf }];
        let bf = i % 8;
        black[i] = x[(i / 8) * 4 + if bf < 4 { bf } else { 7 - bf }];
        i = i + 1;
    }
    [white, black]
}

impl WeightSet {
    /// The weight set is built from the given tables.
    pub open spec fn built_from(
        self,
        base: PieceTable,
        pawn: Weights,
        knight: HalfWeights,
        bishop: HalfWeights,
        rook: HalfWeights,
        queen: HalfWeights,
        king: HalfWeights,
    ) -> bool {
        &&& self.base == base
        &&& doubled(pawn, self.pawn)
        &&& doubled_half(knight, self.knight)
        &&& doubled_half(bishop, self.bishop)
        &&& doubled_half(rook, self.rook)
        &&& doubled_half(queen, self.queen)
        &&& doubled_half(king, self.king)
    }

    /// The piece-square value of a piece kind for side index `s` on
    /// square `i`.
    pub open spec fn spec_square_value(self, piece: Piece, s: int, i: int) -> Score {
        match piece {
            Piece::Pawn => self.pawn[s][i],
            Piece::Knight => self.knight[s][i],
            Piece::Bishop => self.bishop[s][i],
            Piece::Rook => self.rook[s][i],
            Piece::Queen => self.queen[s][i],
            Piece::King => self.king[s][i],
        }
    }

    /// The piece-square value of a piece kind for side index `s` on
    /// square `i`.
    pub fn square_value(&self, piece: Piece, s: usize, i: usize) -> (r: Score)
        requires
            s < 2,
            i < 64,
        ensures
            r == self.spec_square_value(piece, s as int, i as int),
    {
        match piece {
            Piece::Pawn => self.pawn[s][i],
            Piece::Knight => self.knight[s][i],
            Piece::Bishop => self.bishop[s][i],
            Piece::Rook => self.rook[s][i],
            Piece::Queen => self.queen[s][i],
            Piece::King => self.king[s][i],
        }
    }

    /// The weights of the middle game.
    pub fn mid_game() -> (r: WeightSet)
        ensures
            r.built_from(BASE_SCORES, PAWN_BASE, KNIGHT_BASE, BISHOP_BASE, ROOK_BASE, QUEEN_BASE, KING_BASE),
    {
        WeightSet {
            base: BASE_SCORES,
            pawn: double_weights(&PAWN_BASE),
            knight: double_half_weights(&KNIGHT_BASE),
            bishop: double_half_weights(&BISHOP_BASE),
            rook: double_half_weights(&ROOK_BASE),
            queen: double_half_weights(&QUEEN_BASE),
            king: double_half_weights(&KING_BASE),
        }
    }

    /// The weights of the endgame.
    pub fn end_game() -> (r: WeightSet)
        ensures
            r.built_from(END_SCORES, PAWN_END, KNIGHT_END, BISHOP_END, ROOK_END, QUEEN_END, KING_END),
    {
        WeightSet {
            base: END_SCORES,
            pawn: double_weights(&PAWN_END),
            knight: double_half_weights(&KNIGHT_END),
            bishop: double_half_weights(&BISHOP_END),
            rook: double_half_weights(&ROOK_END),
            queen: double_half_weights(&QUEEN_END),
            king: double_half_weights(&KING_END),
        }
    }
}

} // verus!
