use vstd::prelude::*;
use rand::RngCore;
use crate::types::bitboard::{bit, popcount};
use crate::types::{Bitboard, Side};
use crate::board::Board;


verus! {

pub type SideKeys = [u64; 64];
pub type PieceKeys = [SideKeys; 2];
pub type EnPassantKeys = [u64; 8];
pub type CastleKeys = [u64; 2];

/// XOR of `keys[i]` over the squares `i < n` of `mask`.
pub open spec fn xor_keys(keys: Seq<u64>, mask: u64, n: int) -> u64
    decreases n,
{
    if n <= 0 {
        0
    } else {
        xor_keys(keys, mask, n - 1) ^ (if bit(mask, n - 1) {
            keys[n - 1]
        } else {
            0u64
        })
    }
}

/// Hash contribution of the squares of `mask`.
pub open spec fn mask_key(keys: SideKeys, mask: u64) -> u64 {
    xor_keys(keys@, mask, 64)
}

/// Random keys for Zobrist hashing of positions.
#[derive(Clone, Copy)]
pub struct Zobrist {
    pub keys_pawns: PieceKeys,
    pub keys_knights: PieceKeys,
    pub keys_bishops: PieceKeys,
    pub keys_rooks: PieceKeys,
    pub keys_queens: PieceKeys,
    pub keys_kings: PieceKeys,
    pub key_black_to_move: u64,
    pub key_castle_kingside: CastleKeys,
    pub key_castle_queenside: CastleKeys,
    pub keys_en_passant: EnPassantKeys,
}

/// `rand::thread_rng().next_u64()`: a random number.
#[verifier::external_body]
pub fn generate_key() -> u64 {
    rand::thread_rng().next_u64()
}

/// 64 random keys, one per square.
pub fn generate_side_keys() -> SideKeys {
    let mut result = [0u64; 64];
    let mut i = 0usize;
    while i < 64
        invariant
            i <= 64,
        decreases 64 - i,
    {
        result[i] = generate_key();
        i = i + 1;
    }
    result
}

/// Random keys for one piece kind, per side and square.
pub fn generate_piece_keys() -> PieceKeys {
    [generate_side_keys(), generate_side_keys()]
}

/// Random keys per en passant file.
pub fn generate_en_passant_keys() -> EnPassantKeys {
    let mut result = [0u64; 8];
    let mut i = 0usize;
    while i < 8
        invariant
            i <= 8,
        decreases 8 - i,
    {
        result[i] = generate_key();
        i = i + 1;
    }
    result
}

/// Random keys per side for a castling right.
pub fn generate_castle_keys() -> CastleKeys {
    [generate_key(), generate_key()]
}

proof fn lemma_xor_skip(keys: Seq<u64>, mask: u64, a: int, b: int)
    requires
        0 <= a <= b <= 64,
        forall|i: int| a <= i < b ==> !bit(mask, i),
    ensures
        xor_keys(keys, mask, b) == xor_keys(keys, mask, a),
    decreases b,
{
    if b > a {
        lemma_xor_skip(keys, mask, a, b - 1);
        let x = xor_keys(keys, mask, b - 1);
        assert(x ^ 0u64 == x) by (bit_vector);
    }
}

proof fn lemma_clear_lowest_smaller(a: u64)
    requires
        a != 0,
    ensures
        a & ((a - 1) as u64) < a,
{
    assert(a != 0 ==> a & ((a - 1) as u64) < a) by (bit_vector);
}

/// Zobrist hash of the position of `b` with the given castling rights.
pub open spec fn position_key(z: Zobrist, b: Board, ck: [bool; 2], cq: [bool; 2]) -> u64 {
    0u64 ^ mask_key(z.keys_pawns[0], b.pawns[0].bitboard) ^ mask_key(
        z.keys_pawns[1],
        b.pawns[1].bitboard,
    ) ^ mask_key(z.keys_knights[0], b.knights[0].bitboard) ^ mask_key(
        z.keys_knights[1],
        b.knights[1].bitboard,
    ) ^ mask_key(z.keys_bishops[0], b.bishops[0].bitboard) ^ mask_key(
        z.keys_bishops[1],
        b.bishops[1].bitboard,
    ) ^ mask_key(z.keys_rooks[0], b.rooks[0].bitboard) ^ mask_key(
        z.keys_rooks[1],
        b.rooks[1].bitboard,
    ) ^ mask_key(z.keys_queens[0], b.queens[0].bitboard) ^ mask_key(
        z.keys_queens[1],
        b.queens[1].bitboard,
    ) ^ mask_key(z.keys_kings[0], b.kings[0].bitboard) ^ mask_key(
        z.keys_kings[1],
        b.kings[1].bitboard,
    ) ^ (if ck[0] {
        z.key_castle_kingside[0]
    } else {
        0u64
    }) ^ (if ck[1] {
        z.key_castle_kingside[1]
    } else {
        0u64
    }) ^ (if cq[0] {
        z.key_castle_queenside[0]
    } else {
        0u64
    }) ^ (if cq[1] {
        z.key_castle_queenside[1]
    } else {
        0u64
    }) ^ (if b.current_color == Side::Black {
        z.key_black_to_move
    } else {
        0u64
    }) ^ (if b.en_passant.bitboard != 0 {
        z.keys_en_passant[(vstd::std_specs::bits::u64_trailing_zeros(b.en_passant.bitboard) % 8) as int]
    } else {
        0u64
    })
}

/// The part of the key of the position of `b` made by its pieces and the
/// castling rights.
spec fn pieces_castling_key(z: Zobrist, b: Board, ck: [bool; 2], cq: [bool; 2]) -> u64 {
    0u64 ^ mask_key(z.keys_pawns[0], b.pawns[0].bitboard) ^ mask_key(
        z.keys_pawns[1],
        b.pawns[1].bitboard,
    ) ^ mask_key(z.keys_knights[0], b.knights[0].bitboard) ^ mask_key(
        z.keys_knights[1],
        b.knights[1].bitboard,
    ) ^ mask_key(z.keys_bishops[0], b.bishops[0].bitboard) ^ mask_key(
        z.keys_bishops[1],
        b.bishops[1].bitboard,
    ) ^ mask_key(z.keys_rooks[0], b.rooks[0].bitboard) ^ mask_key(
        z.keys_rooks[1],
        b.rooks[1].bitboard,
    ) ^ mask_key(z.keys_queens[0], b.queens[0].bitboard) ^ mask_key(
        z.keys_queens[1],
        b.queens[1].bitboard,
    ) ^ mask_key(z.keys_kings[0], b.kings[0].bitboard) ^ mask_key(
        z.keys_kings[1],
        b.kings[1].bitboard,
    ) ^ (if ck[0] {
        z.key_castle_kingside[0]
    } else {
        0u64
    }) ^ (if ck[1] {
        z.key_castle_kingside[1]
    } else {
        0u64
    }) ^ (if cq[0] {
        z.key_castle_queenside[0]
    } else {
        0u64
    }) ^ (if cq[1] {
        z.key_castle_queenside[1]
    } else {
        0u64
    })
}

/// The part of the key made by the en passant square.
spec fn en_passant_key(z: Zobrist, b: Board) -> u64 {
    if b.en_passant.bitboard != 0 {
        z.keys_en_passant[(vstd::std_specs::bits::u64_trailing_zeros(b.en_passant.bitboard) % 8) as int]
    } else {
        0u64
    }
}

/// The side to move is hashed: two positions that differ only in the side
/// to move have keys that differ by exactly the key of black to move, so
/// with a nonzero key they never share a key.
pub proof fn lemma_side_to_move_key(z: Zobrist, w: Board, b: Board, ck: [bool; 2], cq: [bool; 2])
    requires
        w.current_color == Side::White,
        b.current_color == Side::Black,
        b.pawns == w.pawns,
        b.knights == w.knights,
        b.bishops == w.bishops,
        b.rooks == w.rooks,
        b.queens == w.queens,
        b.kings == w.kings,
        b.en_passant == w.en_passant,
    ensures
        position_key(z, b, ck, cq) == position_key(z, w, ck, cq) ^ z.key_black_to_move,
        z.key_black_to_move != 0 ==> position_key(z, b, ck, cq) != position_key(z, w, ck, cq),
{
    let kb = position_key(z, b, ck, cq);
    let kw = position_key(z, w, ck, cq);
    let k = z.key_black_to_move;
    let p = pieces_castling_key(z, b, ck, cq);
    let e = en_passant_key(z, b);
    assert(pieces_castling_key(z, w, ck, cq) == p);
    assert(en_passant_key(z, w) == e);
    assert(kb == (p ^ k) ^ e);
    assert(kw == (p ^ 0u64) ^ e);
    assert forall|i: int| 0 <= i < 64 implies #[trigger] bit(kb, i) == bit(kw ^ k, i) by {
        crate::types::bitboard::lemma_bit_xor(kw, k, i);
        crate::types::bitboard::lemma_bit_xor(p ^ k, e, i);
        crate::types::bitboard::lemma_bit_xor(p ^ 0u64, e, i);
        crate::types::bitboard::lemma_bit_xor(p, k, i);
        crate::types::bitboard::lemma_bit_xor(p, 0u64, i);
        crate::types::bitboard::lemma_bit_zero(i);
    }
    crate::types::bitboard::lemma_bits_ext(kb, kw ^ k);
    if k != 0 && kb == kw {
        assert forall|i: int| 0 <= i < 64 implies #[trigger] bit(k, i) == bit(0u64, i) by {
            crate::types::bitboard::lemma_bit_xor(kw, k, i);
            crate::types::bitboard::lemma_bit_zero(i);
        }
        crate::types::bitboard::lemma_bits_ext(k, 0u64);
    }
}

impl Zobrist {
    pub fn new() -> Self {
        Self {
            keys_pawns: generate_piece_keys(),
            keys_knights: generate_piece_keys(),
            keys_bishops: generate_piece_keys(),
            keys_rooks: generate_piece_keys(),
            keys_queens: generate_piece_keys(),
            keys_kings: generate_piece_keys(),
            key_black_to_move: generate_key(),
            key_castle_kingside: generate_castle_keys(),
            key_castle_queenside: generate_castle_keys(),
            keys_en_passant: generate_en_passant_keys(),
        }
    }

    /// XOR of the keys of the squares of `mask`.
    pub fn key_piece(&self, mask: Bitboard, keys: &SideKeys) -> (r: u64)
        ensures
            r == mask_key(*keys, mask.bitboard),
    {
        let mut key = 0u64;
        let mut rest = mask;
        let ghost mut c: int = 0;
        while rest.not_empty()
            invariant
                0 <= c <= 64,
                forall|i: int|
                    0 <= i < 64 ==> #[trigger] bit(rest.bitboard, i) == (bit(mask.bitboard, i) && i
                        >= c),
                key == xor_keys(keys@, mask.bitboard, c),
            decreases rest.bitboard,
        {
            proof {
                lemma_clear_lowest_smaller(rest.bitboard);
            }
            let ghost before = rest;
            let idx = rest.pop();
            proof {
                let t = idx.idx as int;
                assert forall|i: int| c <= i < t implies !bit(mask.bitboard, i) by {
                    assert(!before.has(i));
                }
                lemma_xor_skip(keys@, mask.bitboard, c, t);
                assert(bit(mask.bitboard, t)) by {
                    assert(before.has(t));
                }
                c = t + 1;
            }
            key = key ^ keys[idx.idx];
            assert forall|i: int| 0 <= i < 64 implies #[trigger] bit(rest.bitboard, i) == (bit(
                mask.bitboard,
                i,
            ) && i >= c) by {
                assert(rest.has(i) == (before.has(i) && i != idx.idx));
            }
        }
        proof {
            assert forall|i: int| c <= i < 64 implies !bit(mask.bitboard, i) by {
                crate::types::bitboard::lemma_bit_zero(i);
                assert(bit(rest.bitboard, i) == (bit(mask.bitboard, i) && i >= c));
            }
            lemma_xor_skip(keys@, mask.bitboard, c, 64);
        }
        key
    }

    /// Zobrist hash of the position of `board` with the given castling
    /// rights.
    pub fn key(&self, board: &Board, castle_kingside: [bool; 2], castle_queenside: [bool; 2]) -> (r: u64)
        ensures
            r == position_key(*self, *board, castle_kingside, castle_queenside),
    {
        let mut key = 0u64;
        key = key ^ self.key_piece(board.pawns[0], &self.keys_pawns[0]);
        key = key ^ self.key_piece(board.pawns[1], &self.keys_pawns[1]);
        key = key ^ self.key_piece(board.knights[0], &self.keys_knights[0]);
        key = key ^ self.key_piece(board.knights[1], &self.keys_knights[1]);
        key = key ^ self.key_piece(board.bishops[0], &self.keys_bishops[0]);
        key = key ^ self.key_piece(board.bishops[1], &self.keys_bishops[1]);
        key = key ^ self.key_piece(board.rooks[0], &self.keys_rooks[0]);
        key = key ^ self.key_piece(board.rooks[1], &self.keys_rooks[1]);
        key = key ^ self.key_piece(board.queens[0], &self.keys_queens[0]);
        key = key ^ self.key_piece(board.queens[1], &self.keys_queens[1]);
        key = key ^ self.key_piece(board.kings[0], &self.keys_kings[0]);
        key = key ^ self.key_piece(board.kings[1], &self.keys_kings[1]);
        key = key ^ (if castle_kingside[0] {
            self.key_castle_kingside[0]
        } else {
            0u64
        });
        key = key ^ (if castle_kingside[1] {
            self.key_castle_kingside[1]
        } else {
            0u64
        });
        key = key ^ (if castle_queenside[0] {
            self.key_castle_queenside[0]
        } else {
            0u64
        });
        key = key ^ (if castle_queenside[1] {
            self.key_castle_queenside[1]
        } else {
            0u64
        });
        key = key ^ (if board.side_to_move().is_black() {
            self.key_black_to_move
        } else {
            0u64
        });
        key = key ^ (if board.en_passant.not_empty() {
            self.keys_en_passant[board.en_passant.peek().file()]
        } else {
            0u64
        });
        key
    }
}

} // verus!
