use vstd::prelude::*;
use crate::types::bitboard::{bit, single, group_bits, lemma_bit_or, lemma_bit_not};
use crate::types::{Bitboard, Side};

verus! {

broadcast use group_bits;

pub const SINGLE_RANK: u64 = 0xff;
pub const SINGLE_FILE: u64 = 0x0101010101010101;
pub const FILE_A: u64 = 0x0101010101010101;
pub const FILE_B: u64 = 0x0202020202020202;
pub const FILE_G: u64 = 0x4040404040404040;
pub const FILE_H: u64 = 0x8080808080808080;
pub const RANK_1: u64 = 0xff;
pub const RANK_8: u64 = 0xff00000000000000;

pub open spec fn sq_file(s: int) -> int {
    s % 8
}

pub open spec fn sq_rank(s: int) -> int {
    s / 8
}

pub open spec fn abs(x: int) -> int {
    if x < 0 {
        -x
    } else {
        x
    }
}

/// A knight on `s` attacks `t`.
pub open spec fn knight_target(s: int, t: int) -> bool {
    let df = abs(sq_file(t) - sq_file(s));
    let dr = abs(sq_rank(t) - sq_rank(s));
    0 <= s < 64 && 0 <= t < 64 && ((df == 1 && dr == 2) || (df == 2 && dr == 1))
}

/// A king on `s` attacks `t`.
pub open spec fn king_target(s: int, t: int) -> bool {
    let df = abs(sq_file(t) - sq_file(s));
    let dr = abs(sq_rank(t) - sq_rank(s));
    0 <= s < 64 && 0 <= t < 64 && df <= 1 && dr <= 1 && !(df == 0 && dr == 0)
}

/// Rank step of a pawn of the given side: +1 for white, -1 for black.
pub open spec fn forward(side: Side) -> int {
    match side {
        Side::White => 1,
        Side::Black => -1,
    }
}

/// A pawn of `side` on `s` attacks `t`.
pub open spec fn pawn_target(side: Side, s: int, t: int) -> bool {
    0 <= s < 64 && 0 <= t < 64 && abs(sq_file(t) - sq_file(s)) == 1 && sq_rank(t) == sq_rank(s)
        + forward(side)
}

pub broadcast proof fn lemma_file_bits(t: int)
    requires
        0 <= t < 64,
    ensures
        #[trigger] bit(FILE_A, t) == (t % 8 == 0),
        bit(FILE_B, t) == (t % 8 == 1),
        bit(FILE_G, t) == (t % 8 == 6),
        bit(FILE_H, t) == (t % 8 == 7),
        bit(RANK_1, t) == (t / 8 == 0),
        bit(RANK_8, t) == (t / 8 == 7),
{
    let j = t as u64;
    assert(((0x0101010101010101u64 >> j) & 1u64 == 1u64) == (j % 8 == 0)) by (bit_vector)
        requires
            j < 64,
    ;
    assert(((0x0202020202020202u64 >> j) & 1u64 == 1u64) == (j % 8 == 1)) by (bit_vector)
        requires
            j < 64,
    ;
    assert(((0x4040404040404040u64 >> j) & 1u64 == 1u64) == (j % 8 == 6)) by (bit_vector)
        requires
            j < 64,
    ;
    assert(((0x8080808080808080u64 >> j) & 1u64 == 1u64) == (j % 8 == 7)) by (bit_vector)
        requires
            j < 64,
    ;
    assert(((0xffu64 >> j) & 1u64 == 1u64) == (j / 8 == 0)) by (bit_vector)
        requires
            j < 64,
    ;
    assert(((0xff00000000000000u64 >> j) & 1u64 == 1u64) == (j / 8 == 7)) by (bit_vector)
        requires
            j < 64,
    ;
}

/// The squares of rank `rank` (0-based).
pub fn ranks(rank: usize) -> (r: Bitboard)
    requires
        rank < 8,
    ensures
        forall|t: int| 0 <= t < 64 ==> #[trigger] r.has(t) == (t / 8 == rank),
{
    let k = (8 * rank) as u64;
    let b = SINGLE_RANK << k;
    assert forall|t: int| 0 <= t < 64 implies #[trigger] bit(b, t) == (t / 8 == rank) by {
        let j = t as u64;
        let rr = rank as u64;
        assert((((0xffu64 << k) >> j) & 1u64 == 1u64) == (j / 8 == rr)) by (bit_vector)
            requires
                j < 64,
                rr < 8,
                k == 8 * rr,
        ;
    }
    Bitboard::from_u64(b)
}

/// The squares of file `file` (0 is the a-file).
pub fn files(file: usize) -> (r: Bitboard)
    requires
        file < 8,
    ensures
        forall|t: int| 0 <= t < 64 ==> #[trigger] r.has(t) == (t % 8 == file),
        r.bitboard == 0x0101010101010101u64 << (file as u64),
{
    let k = file as u64;
    let b = SINGLE_FILE << k;
    assert forall|t: int| 0 <= t < 64 implies #[trigger] bit(b, t) == (t % 8 == file) by {
        let j = t as u64;
        assert((((0x0101010101010101u64 << k) >> j) & 1u64 == 1u64) == (j % 8 == k)) by (bit_vector)
            requires
                j < 64,
                k < 8,
        ;
    }
    Bitboard::from_u64(b)
}

/// Rank `rank` counted from the side's own back rank.
pub fn ranks_relative(rank: usize, side: Side) -> (r: Bitboard)
    requires
        rank < 8,
    ensures
        forall|t: int|
            0 <= t < 64 ==> #[trigger] r.has(t) == (t / 8 == (if side == Side::White {
                rank as int
            } else {
                7 - rank
            })),
{
    match side {
        Side::White => ranks(rank),
        Side::Black => ranks(7 - rank),
    }
}

/// Square of the side's back rank on the given file: `file` for white,
/// `56 + file` for black.
pub open spec fn back_rank_sq(side: Side, file: int) -> int {
    match side {
        Side::White => file,
        Side::Black => 56 + file,
    }
}

fn back_rank_mask(side: Side, file: u64) -> (r: Bitboard)
    requires
        file < 8,
    ensures
        r.bitboard == single(back_rank_sq(side, file as int)),
{
    match side {
        Side::White => Bitboard::from_u64(1u64 << file),
        Side::Black => Bitboard::from_u64(1u64 << (56 + file)),
    }
}

/// Starting square of the queenside rook.
pub fn rook_queenside(side: Side) -> (r: Bitboard)
    ensures
        r.bitboard == single(back_rank_sq(side, 0)),
{
    back_rank_mask(side, 0)
}

/// Starting square of the kingside rook.
pub fn rook_kingside(side: Side) -> (r: Bitboard)
    ensures
        r.bitboard == single(back_rank_sq(side, 7)),
{
    back_rank_mask(side, 7)
}

/// Square of the queenside rook after castling.
pub fn rook_castled_queenside(side: Side) -> (r: Bitboard)
    ensures
        r.bitboard == single(back_rank_sq(side, 3)),
{
    back_rank_mask(side, 3)
}

/// Square of the kingside rook after castling.
pub fn rook_castled_kingside(side: Side) -> (r: Bitboard)
    ensures
        r.bitboard == single(back_rank_sq(side, 5)),
{
    back_rank_mask(side, 5)
}

/// Target square of the king when castling queenside.
pub fn castle_queenside(side: Side) -> (r: Bitboard)
    ensures
        r.bitboard == single(back_rank_sq(side, 2)),
{
    back_rank_mask(side, 2)
}

/// The square the king passes when castling queenside.
pub fn castle_queenside_blocker_queen(side: Side) -> (r: Bitboard)
    ensures
        r.bitboard == single(back_rank_sq(side, 3)),
{
    back_rank_mask(side, 3)
}

/// The square next to the queenside rook, which must be empty to castle.
pub fn castle_queenside_blocker_knight(side: Side) -> (r: Bitboard)
    ensures
        r.bitboard == single(back_rank_sq(side, 1)),
{
    back_rank_mask(side, 1)
}

/// Target square of the king when castling kingside.
pub fn castle_kingside(side: Side) -> (r: Bitboard)
    ensures
        r.bitboard == single(back_rank_sq(side, 6)),
{
    back_rank_mask(side, 6)
}

/// Starting square of the king.
pub fn king_starting_position(side: Side) -> (r: Bitboard)
    ensures
        r.bitboard == single(back_rank_sq(side, 4)),
{
    back_rank_mask(side, 4)
}

/// The square the king passes when castling kingside.
pub fn castle_kingside_blocker(side: Side) -> (r: Bitboard)
    ensures
        r.bitboard == single(back_rank_sq(side, 5)),
{
    back_rank_mask(side, 5)
}

/// The rank where the side's pawns promote.
pub fn last_rank(side: Side) -> (r: Bitboard)
    ensures
        forall|t: int|
            0 <= t < 64 ==> #[trigger] r.has(t) == (t / 8 == (if side == Side::White {
                7int
            } else {
                0
            })),
{
    ranks_relative(7, side)
}

/// The rank from which the side's pawns promote with the next push.
pub fn next_to_last_rank(side: Side) -> (r: Bitboard)
    ensures
        forall|t: int|
            0 <= t < 64 ==> #[trigger] r.has(t) == (t / 8 == (if side == Side::White {
                6int
            } else {
                1
            })),
{
    ranks_relative(6, side)
}

/// The side's pawn starting rank.
pub fn second_rank(side: Side) -> (r: Bitboard)
    ensures
        forall|t: int|
            0 <= t < 64 ==> #[trigger] r.has(t) == (t / 8 == (if side == Side::White {
                1int
            } else {
                6
            })),
{
    ranks_relative(1, side)
}

/// The rank a pawn of the side reaches with a double push.
pub fn en_passant_rank(side: Side) -> (r: Bitboard)
    ensures
        forall|t: int|
            0 <= t < 64 ==> #[trigger] r.has(t) == (t / 8 == (if side == Side::White {
                3int
            } else {
                4
            })),
{
    ranks_relative(3, side)
}

/// Squares a knight on the squares of `mask` attacks, by shifts.
pub open spec fn knight_shifts(mask: u64) -> u64 {
    ((mask << 15u64) & !FILE_H) | ((mask << 17u64) & !FILE_A) | ((mask << 6u64) & !(FILE_G
        | FILE_H)) | ((mask << 10u64) & !(FILE_A | FILE_B)) | ((mask >> 10u64) & !(FILE_G
        | FILE_H)) | ((mask >> 6u64) & !(FILE_A | FILE_B)) | ((mask >> 17u64) & !FILE_H) | ((mask
        >> 15u64) & !FILE_A)
}

/// Squares a knight on the squares of `mask` attacks.
pub fn knight_moves(mask: u64) -> (r: u64)
    ensures
        r == knight_shifts(mask),
{
    ((mask << 15u64) & !FILE_H) | ((mask << 17u64) & !FILE_A) | ((mask << 6u64) & !(FILE_G
        | FILE_H)) | ((mask << 10u64) & !(FILE_A | FILE_B)) | ((mask >> 10u64) & !(FILE_G
        | FILE_H)) | ((mask >> 6u64) & !(FILE_A | FILE_B)) | ((mask >> 17u64) & !FILE_H) | ((mask
        >> 15u64) & !FILE_A)
}

/// The knight jumps as index offsets, excluding wrap-arounds across the
/// board edge.
pub open spec fn knight_offsets(s: int, t: int) -> bool {
    ||| t == s + 15 && t % 8 != 7
    ||| t == s + 17 && t % 8 != 0
    ||| t == s + 6 && t % 8 < 6
    ||| t == s + 10 && t % 8 > 1
    ||| t == s - 10 && t % 8 < 6
    ||| t == s - 6 && t % 8 > 1
    ||| t == s - 17 && t % 8 != 7
    ||| t == s - 15 && t % 8 != 0
}

proof fn lemma_knight_offsets(s: int, t: int)
    requires
        0 <= s < 64,
        0 <= t < 64,
    ensures
        knight_offsets(s, t) == knight_target(s, t),
{
    let sf = s % 8;
    let sr = s / 8;
    let tf = t % 8;
    let tr = t / 8;
    assert(s == 8 * sr + sf);
    assert(t == 8 * tr + tf);
}

proof fn lemma_shift_term(m: u64, k: u64, left: bool, mask: u64, s: int, t: int)
    requires
        0 <= s < 64,
        0 <= t < 64,
        m == single(s),
        k < 64,
    ensures
        left ==> bit((m << k) & mask, t) == (t == s + k && bit(mask, t)),
        !left ==> bit((m >> k) & mask, t) == (t + k == s && bit(mask, t)),
{
    broadcast use group_bits;

}

pub proof fn lemma_knight_moves(s: int, t: int)
    requires
        0 <= s < 64,
        0 <= t < 64,
    ensures
        bit(knight_shifts(single(s)), t) == knight_target(s, t),
{
    broadcast use group_bits;
    broadcast use lemma_file_bits;

    let m = single(s);
    lemma_file_bits(t);
    lemma_shift_term(m, 15, true, !FILE_H, s, t);
    lemma_shift_term(m, 17, true, !FILE_A, s, t);
    lemma_shift_term(m, 6, true, !(FILE_G | FILE_H), s, t);
    lemma_shift_term(m, 10, true, !(FILE_A | FILE_B), s, t);
    lemma_shift_term(m, 10, false, !(FILE_G | FILE_H), s, t);
    lemma_shift_term(m, 6, false, !(FILE_A | FILE_B), s, t);
    lemma_shift_term(m, 17, false, !FILE_H, s, t);
    lemma_shift_term(m, 15, false, !FILE_A, s, t);
    assert(bit(knight_shifts(m), t) == knight_offsets(s, t));
    lemma_knight_offsets(s, t);
}

/// Squares a king on the squares of `mask` attacks, by shifts.
pub open spec fn king_shifts(mask: u64) -> u64 {
    ((mask << 7u64) & !FILE_H) | ((mask << 8u64) & 0xffff_ffff_ffff_ffffu64) | ((mask << 9u64)
        & !FILE_A) | ((mask << 1u64) & !FILE_A) | ((mask >> 1u64) & !FILE_H) | ((mask >> 7u64)
        & !FILE_A) | ((mask >> 8u64) & 0xffff_ffff_ffff_ffffu64) | ((mask >> 9u64) & !FILE_H)
}

/// Squares a king on the squares of `mask` attacks.
pub fn king_moves(mask: u64) -> (r: u64)
    ensures
        r == king_shifts(mask),
{
    let r = ((mask << 7u64) & !FILE_H) | (mask << 8u64) | ((mask << 9u64) & !FILE_A) | ((mask
        << 1u64) & !FILE_A) | ((mask >> 1u64) & !FILE_H) | ((mask >> 7u64) & !FILE_A) | (mask
        >> 8u64) | ((mask >> 9u64) & !FILE_H);
    assert(r == king_shifts(mask)) by {
        assert((mask << 8u64) & 0xffff_ffff_ffff_ffffu64 == mask << 8u64) by (bit_vector);
        assert((mask >> 8u64) & 0xffff_ffff_ffff_ffffu64 == mask >> 8u64) by (bit_vector);
    }
    r
}

proof fn lemma_king_offsets(s: int, t: int)
    requires
        0 <= s < 64,
        0 <= t < 64,
    ensures
        ({
            ||| t == s + 7 && t % 8 != 7
            ||| t == s + 8
            ||| t == s + 9 && t % 8 != 0
            ||| t == s + 1 && t % 8 != 0
            ||| t == s - 1 && t % 8 != 7
            ||| t == s - 7 && t % 8 != 0
            ||| t == s - 8
            ||| t == s - 9 && t % 8 != 7
        }) == king_target(s, t),
{
    let sf = s % 8;
    let sr = s / 8;
    let tf = t % 8;
    let tr = t / 8;
    assert(s == 8 * sr + sf);
    assert(t == 8 * tr + tf);
}

pub proof fn lemma_king_moves(s: int, t: int)
    requires
        0 <= s < 64,
        0 <= t < 64,
    ensures
        bit(king_shifts(single(s)), t) == king_target(s, t),
{
    broadcast use group_bits;

    let m = single(s);
    let full = 0xffff_ffff_ffff_ffffu64;
    lemma_file_bits(t);
    lemma_shift_term(m, 7, true, !FILE_H, s, t);
    lemma_shift_term(m, 8, true, full, s, t);
    lemma_shift_term(m, 9, true, !FILE_A, s, t);
    lemma_shift_term(m, 1, true, !FILE_A, s, t);
    lemma_shift_term(m, 1, false, !FILE_H, s, t);
    lemma_shift_term(m, 7, false, !FILE_A, s, t);
    lemma_shift_term(m, 8, false, full, s, t);
    lemma_shift_term(m, 9, false, !FILE_H, s, t);
    lemma_king_offsets(s, t);
}

/// Squares white pawns on the squares of `mask` attack, by shifts.
pub open spec fn pawn_white_shifts(mask: u64) -> u64 {
    ((mask << 7u64) & !FILE_H) | ((mask << 9u64) & !FILE_A)
}

/// Squares black pawns on the squares of `mask` attack, by shifts.
pub open spec fn pawn_black_shifts(mask: u64) -> u64 {
    ((mask >> 7u64) & !FILE_A) | ((mask >> 9u64) & !FILE_H)
}

pub fn pawn_attacks_white(mask: u64) -> (r: u64)
    ensures
        r == pawn_white_shifts(mask),
{
    ((mask << 7u64) & !FILE_H) | ((mask << 9u64) & !FILE_A)
}

pub fn pawn_attacks_black(mask: u64) -> (r: u64)
    ensures
        r == pawn_black_shifts(mask),
{
    ((mask >> 7u64) & !FILE_A) | ((mask >> 9u64) & !FILE_H)
}

proof fn lemma_pawn_offsets(s: int, t: int)
    requires
        0 <= s < 64,
        0 <= t < 64,
    ensures
        ((t == s + 7 && t % 8 != 7) || (t == s + 9 && t % 8 != 0)) == pawn_target(Side::White, s, t),
        ((t == s - 7 && t % 8 != 0) || (t == s - 9 && t % 8 != 7)) == pawn_target(Side::Black, s, t),
{
    let sf = s % 8;
    let sr = s / 8;
    let tf = t % 8;
    let tr = t / 8;
    assert(s == 8 * sr + sf);
    assert(t == 8 * tr + tf);
}

pub proof fn lemma_pawn_attacks(s: int, t: int)
    requires
        0 <= s < 64,
        0 <= t < 64,
    ensures
        bit(pawn_white_shifts(single(s)), t) == pawn_target(Side::White, s, t),
        bit(pawn_black_shifts(single(s)), t) == pawn_target(Side::Black, s, t),
{
    let m = single(s);
    lemma_file_bits(t);
    lemma_shift_term(m, 7, true, !FILE_H, s, t);
    lemma_shift_term(m, 9, true, !FILE_A, s, t);
    lemma_shift_term(m, 7, false, !FILE_A, s, t);
    lemma_shift_term(m, 9, false, !FILE_H, s, t);
    lemma_bit_or((m << 7u64) & !FILE_H, (m << 9u64) & !FILE_A, t);
    lemma_bit_or((m >> 7u64) & !FILE_A, (m >> 9u64) & !FILE_H, t);
    lemma_bit_not(FILE_H, t);
    lemma_bit_not(FILE_A, t);
    lemma_pawn_offsets(s, t);
}

pub open spec fn min(a: int, b: int) -> int {
    if a <= b {
        a
    } else {
        b
    }
}

pub open spec fn max(a: int, b: int) -> int {
    if a >= b {
        a
    } else {
        b
    }
}

/// Square `t` lies strictly between squares `a` and `b`, which share a
/// file, a rank or a diagonal.
pub open spec fn between(a: int, b: int, t: int) -> bool {
    let fa = sq_file(a);
    let ra = sq_rank(a);
    let fb = sq_file(b);
    let rb = sq_rank(b);
    let ft = sq_file(t);
    let rt = sq_rank(t);
    ||| fa == fb && ra != rb && ft == fa && min(ra, rb) < rt < max(ra, rb)
    ||| ra == rb && fa != fb && rt == ra && min(fa, fb) < ft < max(fa, fb)
    ||| ra + fa == rb + fb && ra != rb && rt + ft == ra + fa && min(ra, rb) < rt < max(ra, rb)
    ||| ra - fa == rb - fb && ra != rb && rt - ft == ra - fa && min(ra, rb) < rt < max(ra, rb)
}

/// The squares strictly between `a` and `b` when they share a line, else
/// nothing.
#[verifier::rlimit(40)]
pub fn fill_between_entry(a: usize, b: usize) -> (r: Bitboard)
    requires
        a < 64,
        b < 64,
    ensures
        forall|t: int| 0 <= t < 64 ==> #[trigger] r.has(t) == between(a as int, b as int, t),
{
    if a == b {
        return Bitboard::from_u64(0);
    }
    let (lo, hi) = if a > b {
        (b, a)
    } else {
        (a, b)
    };
    assert forall|t: int| 0 <= t < 64 implies between(a as int, b as int, t) == between(
        lo as int,
        hi as int,
        t,
    ) by {}
    let fl = lo % 8;
    let rl = lo / 8;
    let fh = hi % 8;
    let rh = hi / 8;
    assert(lo == 8 * rl + fl && hi == 8 * rh + fh);
    let mut result = 0u64;
    let mut cur = lo;
    if fl == fh {
        let ghost mut k: int = 0;
        while cur != hi - 8
            invariant
                lo < hi < 64,
                lo == 8 * rl + fl,
                hi == 8 * rh + fh,
                fl == fh,
                0 <= fl < 8,
                rl < rh,
                0 <= k < rh - rl,
                cur == 8 * (rl + k) + fl,
                forall|t: int|
                    0 <= t < 64 ==> #[trigger] bit(result, t) == (t % 8 == fl && rl < t / 8 <= rl
                        + k),
            decreases rh - rl - k,
        {
            cur = cur + 8;
            proof {
                crate::types::bitboard::lemma_bit_or_single(result, cur as int);
                k = k + 1;
            }
            let ghost old_result = result;
            result = result | (1u64 << (cur as u64));
            assert(result == old_result | single(cur as int));
            assert forall|t: int| 0 <= t < 64 implies #[trigger] bit(result, t) == (t % 8 == fl && rl < t / 8 <= rl + k) by {
                assert(t == 8 * (t / 8) + t % 8);
                assert(bit(result, t) == (bit(old_result, t) || t == cur));
            }
        }
    } else if rl == rh {
        let ghost mut k: int = 0;
        while cur != hi - 1
            invariant
                lo < hi < 64,
                lo == 8 * rl + fl,
                hi == 8 * rh + fh,
                rl == rh,
                0 <= fl < 8,
                fl < fh < 8,
                0 <= k < fh - fl,
                cur == 8 * rl + fl + k,
                forall|t: int|
                    0 <= t < 64 ==> #[trigger] bit(result, t) == (t / 8 == rl && fl < t % 8 <= fl
                        + k),
            decreases fh - fl - k,
        {
            cur = cur + 1;
            proof {
                crate::types::bitboard::lemma_bit_or_single(result, cur as int);
                k = k + 1;
            }
            let ghost old_result = result;
            result = result | (1u64 << (cur as u64));
            assert(result == old_result | single(cur as int));
            assert forall|t: int| 0 <= t < 64 implies #[trigger] bit(result, t) == (t / 8 == rl && fl < t % 8 <= fl + k) by {
                assert(t == 8 * (t / 8) + t % 8);
                assert(bit(result, t) == (bit(old_result, t) || t == cur));
            }
        }
    } else if rl + fl == rh + fh {
        let ghost mut k: int = 0;
        while cur != hi - 7
            invariant
                lo < hi < 64,
                lo == 8 * rl + fl,
                hi == 8 * rh + fh,
                0 <= fl < 8,
                0 <= fh < 8,
                rl + fl == rh + fh,
                rl < rh,
                0 <= k < rh - rl,
                cur == 8 * (rl + k) + (fl - k),
                forall|t: int|
                    0 <= t < 64 ==> #[trigger] bit(result, t) == (t / 8 + t % 8 == rl + fl && rl
                        < t / 8 <= rl + k),
            decreases rh - rl - k,
        {
            cur = cur + 7;
            proof {
                crate::types::bitboard::lemma_bit_or_single(result, cur as int);
                k = k + 1;
            }
            let ghost old_result = result;
            result = result | (1u64 << (cur as u64));
            assert(result == old_result | single(cur as int));
            assert forall|t: int| 0 <= t < 64 implies #[trigger] bit(result, t) == (t / 8 + t % 8 == rl + fl && rl < t / 8 <= rl + k) by {
                assert(t == 8 * (t / 8) + t % 8);
                assert(bit(result, t) == (bit(old_result, t) || t == cur));
            }
        }
    } else if rl + 7 - fl == rh + 7 - fh {
        let ghost mut k: int = 0;
        while cur != hi - 9
            invariant
                lo < hi < 64,
                lo == 8 * rl + fl,
                hi == 8 * rh + fh,
                0 <= fl < 8,
                0 <= fh < 8,
                rl - fl == rh - fh,
                rl < rh,
                0 <= k < rh - rl,
                cur == 8 * (rl + k) + (fl + k),
                forall|t: int|
                    0 <= t < 64 ==> #[trigger] bit(result, t) == (t / 8 - t % 8 == rl - fl && rl
                        < t / 8 <= rl + k),
            decreases rh - rl - k,
        {
            cur = cur + 9;
            proof {
                crate::types::bitboard::lemma_bit_or_single(result, cur as int);
                k = k + 1;
            }
            let ghost old_result = result;
            result = result | (1u64 << (cur as u64));
            assert(result == old_result | single(cur as int));
            assert forall|t: int| 0 <= t < 64 implies #[trigger] bit(result, t) == (t / 8 - t % 8 == rl - fl && rl < t / 8 <= rl + k) by {
                assert(t == 8 * (t / 8) + t % 8);
                assert(bit(result, t) == (bit(old_result, t) || t == cur));
            }
        }
    } else {
        proof {
            crate::types::bitboard::lemma_bits_empty_forall();
        }
    }
    Bitboard::from_u64(result)
}

} // verus!
