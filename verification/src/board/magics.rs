use vstd::prelude::*;
use vstd::arithmetic::power2::pow2;
use crate::types::bitboard::{bit, single, group_bits, lemma_bits_ext};
use crate::types::{Bitboard, Square};
use crate::board::masks::{FILE_A, FILE_H, RANK_1, RANK_8, lemma_file_bits};

verus! {

broadcast use group_bits;

/// Sliding directions: 0 north, 1 south, 2 east, 3 west, 4 north-east,
/// 5 north-west, 6 south-east, 7 south-west.
pub open spec fn dir_df(dir: int) -> int {
    if dir == 2 || dir == 4 || dir == 6 {
        1
    } else if dir == 3 || dir == 5 || dir == 7 {
        -1
    } else {
        0
    }
}

pub open spec fn dir_dr(dir: int) -> int {
    if dir == 0 || dir == 4 || dir == 5 {
        1
    } else if dir == 1 || dir == 6 || dir == 7 {
        -1
    } else {
        0
    }
}

/// `k` times a unit step `v` in {-1, 0, 1}.
pub open spec fn scale(k: int, v: int) -> int {
    if v == 1 {
        k
    } else if v == -1 {
        -k
    } else {
        0
    }
}

/// The `k`-th square from `s` in direction `dir` lies on the board.
pub open spec fn ray_in_board(s: int, dir: int, k: int) -> bool {
    &&& 0 <= s % 8 + scale(k, dir_df(dir)) < 8
    &&& 0 <= s / 8 + scale(k, dir_dr(dir)) < 8
}

/// The `k`-th square from `s` in direction `dir`.
pub open spec fn ray_square(s: int, dir: int, k: int) -> int {
    8 * (s / 8 + scale(k, dir_dr(dir))) + (s % 8 + scale(k, dir_df(dir)))
}

/// A slider on `s` moving in direction `dir`, having passed the first
/// `k - 1` squares unblocked, reaches `t`: the ray stops at the first
/// occupied square, which it includes.
pub open spec fn ray_hits(s: int, dir: int, occ: u64, k: int, t: int) -> bool
    decreases 8 - k,
{
    if k < 1 || k > 7 || !ray_in_board(s, dir, k) {
        false
    } else if t == ray_square(s, dir, k) {
        true
    } else if bit(occ, ray_square(s, dir, k)) {
        false
    } else {
        ray_hits(s, dir, occ, k + 1, t)
    }
}

/// Squares a rook on `s` attacks with the squares of `occ` occupied.
pub open spec fn rook_target(s: int, occ: u64, t: int) -> bool {
    ray_hits(s, 0, occ, 1, t) || ray_hits(s, 1, occ, 1, t) || ray_hits(s, 2, occ, 1, t)
        || ray_hits(s, 3, occ, 1, t)
}

/// Squares a bishop on `s` attacks with the squares of `occ` occupied.
pub open spec fn bishop_target(s: int, occ: u64, t: int) -> bool {
    ray_hits(s, 4, occ, 1, t) || ray_hits(s, 5, occ, 1, t) || ray_hits(s, 6, occ, 1, t)
        || ray_hits(s, 7, occ, 1, t)
}

/// Squares from which a slider may still step in direction `dir`.
fn boundary(dir: usize) -> (r: u64)
    requires
        dir < 8,
    ensures
        forall|x: int|
            0 <= x < 64 ==> #[trigger] bit(r, x) == (0 <= x % 8 + dir_df(dir as int) < 8 && 0
                <= x / 8 + dir_dr(dir as int) < 8),
{
    broadcast use lemma_file_bits;

    let r = match dir {
        0 => !RANK_8,
        1 => !RANK_1,
        2 => !FILE_H,
        3 => !FILE_A,
        4 => !(RANK_8 | FILE_H),
        5 => !(RANK_8 | FILE_A),
        6 => !(RANK_1 | FILE_H),
        _ => !(RANK_1 | FILE_A),
    };
    assert forall|x: int| 0 <= x < 64 implies #[trigger] bit(r, x) == (0 <= x % 8 + dir_df(
        dir as int,
    ) < 8 && 0 <= x / 8 + dir_dr(dir as int) < 8) by {
        lemma_file_bits(x);
    }
    r
}

/// Index offset of one step in direction `dir`.
pub open spec fn dir_offset(dir: int) -> int {
    8 * dir_dr(dir) + dir_df(dir)
}

proof fn lemma_shift_single(x: int, d: int)
    requires
        0 <= x < 64,
        0 <= x + d < 64,
        -9 <= d <= 9,
    ensures
        d >= 0 ==> single(x) << (d as u64) == single(x + d),
        d < 0 ==> single(x) >> ((-d) as u64) == single(x + d),
{
    let xu = x as u64;
    if d >= 0 {
        let du = d as u64;
        let y = (x + d) as u64;
        assert((1u64 << xu) << du == 1u64 << y) by (bit_vector)
            requires
                xu < 64,
                du < 64,
                y == xu + du,
                y < 64,
        ;
    } else {
        let du = (-d) as u64;
        let y = (x + d) as u64;
        assert((1u64 << xu) >> du == 1u64 << y) by (bit_vector)
            requires
                xu < 64,
                du < 64,
                xu == y + du,
                y < 64,
        ;
    }
}

proof fn lemma_ray_step(s: int, dir: int, k: int)
    requires
        0 <= s < 64,
        0 <= dir < 8,
        k >= 0,
        k == 0 || ray_in_board(s, dir, k),
    ensures
        k == 0 ==> ray_square(s, dir, k) == s,
        ray_square(s, dir, k) % 8 == s % 8 + scale(k, dir_df(dir)),
        ray_square(s, dir, k) / 8 == s / 8 + scale(k, dir_dr(dir)),
        0 <= ray_square(s, dir, k) < 64,
        ray_square(s, dir, k + 1) == ray_square(s, dir, k) + dir_offset(dir),
        ray_in_board(s, dir, k + 1) == (0 <= ray_square(s, dir, k) % 8 + dir_df(dir) < 8 && 0
            <= ray_square(s, dir, k) / 8 + dir_dr(dir) < 8),
{
    assert(s == 8 * (s / 8) + s % 8);
}

/// Attacks of a slider on `idx` in direction `dir`, stopping at the first
/// occupied square.
fn slide(idx: Square, dir: usize, occupied: Bitboard) -> (r: Bitboard)
    requires
        idx.valid(),
        dir < 8,
    ensures
        forall|t: int|
            0 <= t < 64 ==> #[trigger] r.has(t) == ray_hits(
                idx.idx as int,
                dir as int,
                occupied.bitboard,
                1,
                t,
            ),
{
    let ghost s = idx.idx as int;
    let ghost d = dir as int;
    let ghost occ = occupied.bitboard;
    let bound = boundary(dir);
    let mut slider = 1u64 << (idx.idx as u64);
    let mut attacks = 0u64;
    let mut done = false;
    let ghost mut k: int = 0;
    proof {
        lemma_ray_step(s, d, 0);
    }
    while !done && (slider & bound) != 0
        invariant
            0 <= s < 64,
            0 <= d < 8,
            d == dir,
            0 <= k <= 7,
            k == 0 || ray_in_board(s, d, k),
            slider == single(ray_square(s, d, k)),
            0 <= ray_square(s, d, k) < 64,
            occ == occupied.bitboard,
            s == idx.idx,
            forall|x: int|
                0 <= x < 64 ==> #[trigger] bit(bound, x) == (0 <= x % 8 + dir_df(d) < 8 && 0
                    <= x / 8 + dir_dr(d) < 8),
            forall|t: int|
                0 <= t < 64 ==> #[trigger] ray_hits(s, d, occ, 1, t) == (bit(attacks, t) || (!done
                    && ray_hits(s, d, occ, k + 1, t))),
        decreases 2 * (8 - k) + (if done { 0int } else { 1int }),
    {
        let ghost cur = ray_square(s, d, k);
        proof {
            lemma_ray_step(s, d, k);
            assert(bit(slider & bound, cur) == bit(bound, cur));
            if !bit(bound, cur) {
                assert forall|x: int| 0 <= x < 64 && x != cur implies !bit(slider & bound, x) by {}
                crate::types::bitboard::lemma_bits_empty(slider & bound);
            }
        }
        assert(bit(bound, cur));
        let ghost next = ray_square(s, d, k + 1);
        proof {
            lemma_ray_step(s, d, k + 1);
            lemma_shift_single(cur, dir_offset(d));
        }
        slider = match dir {
            0 => slider << 8u64,
            1 => slider >> 8u64,
            2 => slider << 1u64,
            3 => slider >> 1u64,
            4 => slider << 9u64,
            5 => slider << 7u64,
            6 => slider >> 7u64,
            _ => slider >> 9u64,
        };
        assert(slider == single(next));
        let ghost old_attacks = attacks;
        attacks = attacks | slider;
        proof {
            k = k + 1;
        }
        proof {
            crate::types::bitboard::lemma_bit_and(occ, slider, next);
            crate::types::bitboard::lemma_bit_single(next, next);
        }
        if (occupied.bitboard & slider) != 0 {
            done = true;
            proof {
                assert(bit(occ, next)) by {
                    if !bit(occ, next) {
                        assert forall|x: int| 0 <= x < 64 implies !bit(occ & slider, x) by {}
                        crate::types::bitboard::lemma_bits_empty(occ & slider);
                    }
                }
            }
        }
        assert forall|t: int| 0 <= t < 64 implies #[trigger] ray_hits(s, d, occ, 1, t) == (bit(
            attacks,
            t,
        ) || (!done && ray_hits(s, d, occ, k + 1, t))) by {
            assert(bit(attacks, t) == (bit(old_attacks, t) || t == next));
            assert(k <= 7);
            assert(ray_hits(s, d, occ, k, t) == (t == next || (!bit(occ, next) && ray_hits(
                s,
                d,
                occ,
                k + 1,
                t,
            ))));
        }
    }
    proof {
        if !done {
            let cur = ray_square(s, d, k);
            lemma_ray_step(s, d, k);
            if bit(bound, cur) {
                assert(bit(slider & bound, cur));
            }
            assert(!ray_in_board(s, d, k + 1));
        }
    }
    Bitboard::from_u64(attacks)
}

/// Squares a bishop on `idx` attacks when the squares of `occupied` are
/// occupied.
pub fn bishop(idx: Square, occupied: Bitboard) -> (r: Bitboard)
    requires
        idx.valid(),
    ensures
        forall|t: int|
            0 <= t < 64 ==> #[trigger] r.has(t) == bishop_target(idx.idx as int, occupied.bitboard, t),
{
    let a = slide(idx, 6, occupied);
    let b = slide(idx, 7, occupied);
    let c = slide(idx, 5, occupied);
    let d = slide(idx, 4, occupied);
    let r = a.or(b).or(c).or(d);
    assert forall|t: int| 0 <= t < 64 implies #[trigger] r.has(t) == bishop_target(
        idx.idx as int,
        occupied.bitboard,
        t,
    ) by {
        let s = idx.idx as int;
        let o = occupied.bitboard;
        assert(a.has(t) == ray_hits(s, 6, o, 1, t));
        assert(b.has(t) == ray_hits(s, 7, o, 1, t));
        assert(c.has(t) == ray_hits(s, 5, o, 1, t));
        assert(d.has(t) == ray_hits(s, 4, o, 1, t));
        crate::types::bitboard::lemma_bit_or(a.bitboard, b.bitboard, t);
        crate::types::bitboard::lemma_bit_or(a.bitboard | b.bitboard, c.bitboard, t);
        crate::types::bitboard::lemma_bit_or(a.bitboard | b.bitboard | c.bitboard, d.bitboard, t);
    }
    r
}

/// Squares a rook on `idx` attacks when the squares of `occupied` are
/// occupied.
pub fn rook(idx: Square, occupied: Bitboard) -> (r: Bitboard)
    requires
        idx.valid(),
    ensures
        forall|t: int|
            0 <= t < 64 ==> #[trigger] r.has(t) == rook_target(idx.idx as int, occupied.bitboard, t),
{
    let a = slide(idx, 3, occupied);
    let b = slide(idx, 2, occupied);
    let c = slide(idx, 0, occupied);
    let d = slide(idx, 1, occupied);
    let r = a.or(b).or(c).or(d);
    assert forall|t: int| 0 <= t < 64 implies #[trigger] r.has(t) == rook_target(
        idx.idx as int,
        occupied.bitboard,
        t,
    ) by {
        let s = idx.idx as int;
        let o = occupied.bitboard;
        assert(a.has(t) == ray_hits(s, 3, o, 1, t));
        assert(b.has(t) == ray_hits(s, 2, o, 1, t));
        assert(c.has(t) == ray_hits(s, 0, o, 1, t));
        assert(d.has(t) == ray_hits(s, 1, o, 1, t));
        crate::types::bitboard::lemma_bit_or(a.bitboard, b.bitboard, t);
        crate::types::bitboard::lemma_bit_or(a.bitboard | b.bitboard, c.bitboard, t);
        crate::types::bitboard::lemma_bit_or(a.bitboard | b.bitboard | c.bitboard, d.bitboard, t);
    }
    r
}


/// The squares that a slider on `sq` attacks with `occ` occupied: a bishop
/// when `diagonal`, else a rook.
pub open spec fn slider_target(diagonal: bool, sq: int, occ: u64, t: int) -> bool {
    if diagonal {
        bishop_target(sq, occ, t)
    } else {
        rook_target(sq, occ, t)
    }
}

/// `v` holds exactly the squares that a slider on `sq` attacks with `occ`
/// occupied.
pub open spec fn is_attack_set(diagonal: bool, sq: int, occ: u64, v: u64) -> bool {
    forall|t: int| 0 <= t < 64 ==> #[trigger] bit(v, t) == slider_target(diagonal, sq, occ, t)
}

/// Square `x` lies on the outer ranks or files, away from the rank and file
/// of `sq`.
pub open spec fn is_edge(sq: int, x: int) -> bool {
    ||| (x / 8 == 0 || x / 8 == 7) && x / 8 != sq / 8
    ||| (x % 8 == 0 || x % 8 == 7) && x % 8 != sq % 8
}

/// The squares whose occupancy can change the attacks of a slider on `sq`:
/// the squares it attacks on an empty board, without the edges.
pub open spec fn relevant(diagonal: bool, sq: int, x: int) -> bool {
    slider_target(diagonal, sq, 0, x) && !is_edge(sq, x)
}

/// The directions of a slider.
pub open spec fn slider_dir(diagonal: bool, dir: int) -> bool {
    if diagonal {
        4 <= dir < 8
    } else {
        0 <= dir < 4
    }
}

/// On an empty board, a ray reaches every square it passes.
proof fn lemma_ray_reaches(s: int, dir: int, i: int, j: int)
    requires
        0 <= s < 64,
        0 <= dir < 8,
        1 <= i <= j <= 7,
        ray_in_board(s, dir, j),
    ensures
        ray_hits(s, dir, 0, i, ray_square(s, dir, j)),
    decreases j - i,
{
    lemma_ray_step(s, dir, i);
    lemma_ray_step(s, dir, j);
    assert(ray_in_board(s, dir, i));
    if ray_square(s, dir, i) != ray_square(s, dir, j) {
        crate::types::bitboard::lemma_bit_zero(ray_square(s, dir, i));
        lemma_ray_reaches(s, dir, i + 1, j);
    }
}

/// A square that a ray passes before its last square on the board is
/// relevant.
proof fn lemma_passed_relevant(diagonal: bool, s: int, dir: int, j: int)
    requires
        0 <= s < 64,
        slider_dir(diagonal, dir),
        1 <= j <= 6,
        ray_in_board(s, dir, j),
        ray_in_board(s, dir, j + 1),
    ensures
        relevant(diagonal, s, ray_square(s, dir, j)),
{
    lemma_ray_reaches(s, dir, 1, j);
    lemma_ray_step(s, dir, j);
}

/// A ray reaches `t` alike with `occ` and with `occ` kept to the relevant
/// squares.
proof fn lemma_ray_relevant(diagonal: bool, s: int, dir: int, occ: u64, mask: u64, k: int, t: int)
    requires
        0 <= s < 64,
        slider_dir(diagonal, dir),
        k >= 1,
        forall|x: int| 0 <= x < 64 ==> #[trigger] bit(mask, x) == relevant(diagonal, s, x),
    ensures
        ray_hits(s, dir, occ, k, t) == ray_hits(s, dir, occ & mask, k, t),
    decreases 8 - k,
{
    if k > 7 || !ray_in_board(s, dir, k) {
    } else if t == ray_square(s, dir, k) {
    } else {
        lemma_ray_step(s, dir, k);
        let x = ray_square(s, dir, k);
        lemma_ray_relevant(diagonal, s, dir, occ, mask, k + 1, t);
        if k < 7 && ray_in_board(s, dir, k + 1) {
            lemma_passed_relevant(diagonal, s, dir, k);
            assert(bit(occ & mask, x) == bit(occ, x));
        } else {
            assert(!ray_hits(s, dir, occ, k + 1, t));
            assert(!ray_hits(s, dir, occ & mask, k + 1, t));
        }
    }
}

/// A slider attacks alike with `occ` and with `occ` kept to the relevant
/// squares.
proof fn lemma_target_relevant(diagonal: bool, s: int, occ: u64, mask: u64, t: int)
    requires
        0 <= s < 64,
        forall|x: int| 0 <= x < 64 ==> #[trigger] bit(mask, x) == relevant(diagonal, s, x),
    ensures
        slider_target(diagonal, s, occ, t) == slider_target(diagonal, s, occ & mask, t),
{
    if diagonal {
        lemma_ray_relevant(diagonal, s, 4, occ, mask, 1, t);
        lemma_ray_relevant(diagonal, s, 5, occ, mask, 1, t);
        lemma_ray_relevant(diagonal, s, 6, occ, mask, 1, t);
        lemma_ray_relevant(diagonal, s, 7, occ, mask, 1, t);
    } else {
        lemma_ray_relevant(diagonal, s, 0, occ, mask, 1, t);
        lemma_ray_relevant(diagonal, s, 1, occ, mask, 1, t);
        lemma_ray_relevant(diagonal, s, 2, occ, mask, 1, t);
        lemma_ray_relevant(diagonal, s, 3, occ, mask, 1, t);
    }
}

/// A slider always attacks some square, so its attack set is not empty.
proof fn lemma_attack_set_nonzero(diagonal: bool, s: int, occ: u64, v: u64)
    requires
        0 <= s < 64,
        is_attack_set(diagonal, s, occ, v),
    ensures
        v != 0,
{
    let dir: int = if diagonal {
        if s / 8 < 7 {
            if s % 8 < 7 { 4 } else { 5 }
        } else {
            if s % 8 < 7 { 6 } else { 7 }
        }
    } else {
        if s / 8 < 7 { 0 } else { 1 }
    };
    lemma_ray_step(s, dir, 0);
    lemma_ray_step(s, dir, 1);
    let t = ray_square(s, dir, 1);
    assert(ray_hits(s, dir, occ, 1, t));
    assert(slider_target(diagonal, s, occ, t));
    crate::types::bitboard::lemma_bit_zero(t);
}

/// The magic factors and index bit counts of the bishop tables, by square.
fn bishop_magic(sq: usize) -> (r: (u64, u64))
    requires
        sq < 64,
{
    let magics: [(u64, u64); 64] = [
        (0xcad28b1d1b6ffe00u64, 5u64), (0x866cdb595d07fd98u64, 4u64),
        (0x92c1d444ffec4900u64, 5u64), (0x81cc2d0a059f5dfeu64, 5u64),
        (0x9fb206100f57cedeu64, 5u64), (0x98930b9ffe4e2ce0u64, 5u64),
        (0xf6a17114e7ff6e90u64, 4u64), (0xb6b86a2efba07ffau64, 5u64),
        (0x78057426f9fd3fe8u64, 4u64), (0xe3cc05704d4267fcu64, 4u64),
        (0x81d7384384108760u64, 5u64), (0x7217044044839f24u64, 5u64),
        (0x0e508c0ce145bcc8u64, 5u64), (0x81a4be4709ff17a0u64, 5u64),
        (0x8d8abd4271a47f20u64, 4u64), (0x21a9471cdd9c3feau64, 4u64),
        (0xf040060bd30adfe8u64, 4u64), (0xe816429f87c8efe0u64, 5u64),
        (0xc3a402e214097200u64, 7u64), (0x6b1c04980161a1a0u64, 7u64),
        (0xe95a0394021109e8u64, 7u64), (0x9bca00d10b722000u64, 7u64),
        (0xf63c0016f2fc8611u64, 5u64), (0x4a2e01939d9a9fe4u64, 4u64),
        (0xaccf4f4f3e29aa20u64, 5u64), (0xe3d01033c93e8548u64, 5u64),
        (0xec220802d10ec400u64, 7u64), (0x9e6e440042002e00u64, 10u64),
        (0x3f979c00006ffcc4u64, 10u64), (0x1793c1007201192au64, 7u64),
        (0x431d074c650dbfa0u64, 5u64), (0xf223e3c645712400u64, 5u64),
        (0xbf0e2894c620204cu64, 5u64), (0x0bec1f287da03a10u64, 5u64),
        (0xe976f80203240400u64, 7u64), (0x1aa57ba00423de00u64, 10u64),
        (0x0ac6c9b2007c0050u64, 10u64), (0x3b0f1007001480e2u64, 7u64),
        (0xd32f082102ea0b03u64, 5u64), (0xdb10940f08698180u64, 5u64),
        (0xe62feb534a284050u64, 4u64), (0xeb3ff589a5d56000u64, 4u64),
        (0xa7fffebbd015f800u64, 7u64), (0x7e5d376011072808u64, 7u64),
        (0xb45161061400ae00u64, 7u64), (0x543c21075b00da00u64, 7u64),
        (0x1cbf59bd94a6bc08u64, 4u64), (0xaa9fccc6c8599200u64, 4u64),
        (0xa937fb155e3426c8u64, 4u64), (0xfeb3fd6b0fd96b2cu64, 4u64),
        (0xad1c9b49cc30276cu64, 5u64), (0xe1b8f4cae0882548u64, 5u64),
        (0xfbd4af6a9af40054u64, 5u64), (0xfb0ee8711b0e0360u64, 5u64),
        (0x67fdd9ebe4f6bb7cu64, 4u64), (0x8d7fece5d68939c0u64, 4u64),
        (0x8f47fefe342ee800u64, 5u64), (0xf613bff4ecfaf9a0u64, 4u64),
        (0x0d028d04c05c1058u64, 5u64), (0x468ae3e19d175800u64, 5u64),
        (0xbc0e0a3b1eb3cc00u64, 5u64), (0x9487554c7cc85e00u64, 5u64),
        (0x4960ffdbae958ea8u64, 4u64), (0x367f6652c0c1ac6cu64, 5u64),
    ];
    magics[sq]
}

/// The magic factors and index bit counts of the rook tables, by square.
fn rook_magic(sq: usize) -> (r: (u64, u64))
    requires
        sq < 64,
{
    let magics: [(u64, u64); 64] = [
        (0xc6aefc26577e46a0u64, 13u64), (0xa99c009b3aafd140u64, 12u64),
        (0x43dffe19b54c6ca0u64, 13u64), (0xf77b8227620a3bc8u64, 13u64),
        (0x0181817d780d8a90u64, 12u64), (0x869599118415425eu64, 13u64),
        (0xcff57fbd9c827180u64, 12u64), (0x6d96c547d78dd900u64, 13u64),
        (0xd1a58001ad4004d4u64, 12u64), (0x970b9fffe1ad8664u64, 11u64),
        (0x1cd3e4515721b8f8u64, 11u64), (0xea9ffde17d6a6d40u64, 11u64),
        (0x31660006549ffe00u64, 10u64), (0xec9749fdd449d74au64, 11u64),
        (0xcab759f2ad9de550u64, 11u64), (0x8926a75efaa7e405u64, 12u64),
        (0x921888311342fae0u64, 12u64), (0xbd0443e700f82000u64, 11u64),
        (0xbfc93bde0354a8c8u64, 11u64), (0x8ceda1fff3664200u64, 11u64),
        (0x4b634600186a3600u64, 11u64), (0x744c37ff5ee49124u64, 11u64),
        (0x32c2540008197250u64, 10u64), (0x40ccc60001017584u64, 11u64),
        (0x1d833b9a17f403b0u64, 12u64), (0x8661b4bd3c323080u64, 11u64),
        (0xef17e90d1bc13330u64, 11u64), (0x4439cd15d122765cu64, 11u64),
        (0xe9c990ff001c7800u64, 11u64), (0x0639f9d6cf7ebc00u64, 11u64),
        (0xc724d983c41d67f0u64, 11u64), (0xf953a61229cdd9f0u64, 12u64),
        (0x404eb5f03a9d6b80u64, 12u64), (0xd30fb7ae01948580u64, 11u64),
        (0x011b2255f6f4ac70u64, 11u64), (0x1b7f388494901000u64, 11u64),
        (0xc372615b26a49800u64, 11u64), (0xe19d2bfa12121460u64, 11u64),
        (0xbf68f80324007e30u64, 10u64), (0xe1a0c93000d4d820u64, 12u64),
        (0x76ce302065a06000u64, 12u64), (0x546f5e4f681ffc00u64, 11u64),
        (0xb709a221607ae000u64, 11u64), (0x986ea56f21f0f000u64, 11u64),
        (0x096d88c3fba27800u64, 11u64), (0xf492bbac249fac00u64, 11u64),
        (0xdfa8aac56b02a8e0u64, 11u64), (0x99f4343090eee100u64, 12u64),
        (0x48fffe99fecfaa00u64, 10u64), (0x48fffe99fecfaa00u64, 9u64),
        (0x497fffadff9c2e00u64, 9u64), (0x613fffddffce9200u64, 9u64),
        (0xffffffe9ffe7ce00u64, 9u64), (0xfffffff5fff3e600u64, 9u64),
        (0x0003ff95e5e6a4c0u64, 9u64), (0x510ffff5f63c96a0u64, 10u64),
        (0xebffffb9ff9fc526u64, 11u64), (0x61fffeddfeedaeaeu64, 10u64),
        (0x53bfffedffdeb1a2u64, 10u64), (0x127fffb9ffdfb5f6u64, 10u64),
        (0x411fffddffdbf4d6u64, 10u64), (0xc27425c119020012u64, 12u64),
        (0x0003ffef27eebe74u64, 10u64), (0x7645fffecbfea79eu64, 11u64),
    ];
    magics[sq]
}

/// The table of one square: the relevant squares, the magic factor, the
/// number of index bits and where its attack sets start in the table. A
/// square whose factor sends two occupancies with different attacks to the
/// same place is not hashed, and its attacks are walked instead.
#[derive(Clone, Copy)]
pub struct Entry {
    pub mask: u64,
    pub magic: u64,
    pub shift: u64,
    pub offset: usize,
    pub hashed: bool,
}

/// The place of occupancy `occ` in the table of `e`: the relevant
/// squares of `occ`, times the magic factor, keeping the top `shift` bits.
pub open spec fn magic_index(e: Entry, occ: u64) -> int {
    (vstd::wrapping::u64_specs::wrapping_mul(occ & e.mask, e.magic) >> ((64 - e.shift) as u64)) as int
}

/// The place of `occ` in the table of `e`.
fn index_of(e: &Entry, occ: u64) -> (r: usize)
    requires
        1 <= e.shift <= 13,
    ensures
        r == magic_index(*e, occ),
        r < pow2(e.shift as nat),
{
    let product = (occ & e.mask).wrapping_mul(e.magic);
    let k = 64 - e.shift;
    let r = product >> k;
    proof {
        vstd::bits::lemma_u64_shr_is_div(product, k);
        vstd::arithmetic::power2::lemma_pow2_adds(k as nat, e.shift as nat);
        vstd::arithmetic::power2::lemma2_to64();
        vstd::arithmetic::power2::lemma_pow2_pos(k as nat);
        let d = pow2(k as nat);
        let p = pow2(e.shift as nat);
        assert(product < d * p);
        assert(product as nat / d < p) by (nonlinear_arith)
            requires
                product < d * p,
                d > 0,
        ;
    }
    r as usize
}

/// The squares of `mask`, lowest first.
fn squares_of(mask: u64) -> (r: Vec<usize>)
    ensures
        forall|i: int| 0 <= i < r@.len() ==> #[trigger] r@[i] < 64 && bit(mask, r@[i] as int),
        forall|x: int| 0 <= x < 64 && #[trigger] bit(mask, x) ==> exists|i: int| 0 <= i < r@.len() && r@[i] == x,
        forall|i: int, j: int| 0 <= i < j < r@.len() ==> r@[i] != r@[j],
{
    let mut rest = Bitboard { bitboard: mask };
    let mut r: Vec<usize> = Vec::new();
    while rest.not_empty()
        invariant
            forall|i: int| 0 <= i < r@.len() ==> #[trigger] r@[i] < 64 && bit(mask, r@[i] as int) && !rest.has(
                r@[i] as int,
            ),
            forall|x: int| 0 <= x < 64 && #[trigger] bit(mask, x) ==> rest.has(x) || exists|i: int|
                0 <= i < r@.len() && r@[i] == x,
            forall|x: int| 0 <= x < 64 && #[trigger] rest.has(x) ==> bit(mask, x),
            forall|i: int, j: int| 0 <= i < j < r@.len() ==> r@[i] != r@[j],
        decreases rest.bitboard,
    {
        let ghost before = rest;
        let ghost listed = r@;
        let sq = rest.pop();
        r.push(sq.idx);
        proof {
            assert forall|i: int| 0 <= i < r@.len() implies #[trigger] r@[i] < 64 && bit(mask, r@[i] as int)
                && !rest.has(r@[i] as int) by {
                if i < listed.len() {
                    assert(r@[i] == listed[i]);
                }
            }
            assert forall|x: int| 0 <= x < 64 && #[trigger] bit(mask, x) implies rest.has(x) || exists|i: int|
                0 <= i < r@.len() && r@[i] == x by {
                if x == sq.idx as int {
                    assert(r@[listed.len() as int] == x);
                } else if !before.has(x) {
                    let i = choose|i: int| 0 <= i < listed.len() && listed[i] == x;
                    assert(r@[i] == x);
                }
            }
            assert forall|i: int, j: int| 0 <= i < j < r@.len() implies r@[i] != r@[j] by {
                if j == listed.len() {
                    assert(r@[i] == listed[i]);
                    assert(!before.has(listed[i] as int));
                } else {
                    assert(r@[i] == listed[i] && r@[j] == listed[j]);
                }
            }
        }
    }
    proof {
        assert forall|x: int| 0 <= x < 64 implies !#[trigger] rest.has(x) by {
            crate::types::bitboard::lemma_bit_zero(x);
        }
    }
    r
}

/// Square `x` is one of `squares` from place `k` on.
pub open spec fn later(squares: Seq<usize>, k: int, x: int) -> bool {
    exists|i: int| k <= i < squares.len() && squares[i] == x
}

/// `o` holds only squares of `mask`, and agrees with `occ` off the squares
/// of `squares` from place `k` on.
pub open spec fn agrees(o: u64, occ: u64, mask: u64, squares: Seq<usize>, k: int) -> bool {
    &&& forall|x: int| 0 <= x < 64 && #[trigger] bit(o, x) ==> bit(mask, x)
    &&& forall|x: int| 0 <= x < 64 && !later(squares, k, x) ==> #[trigger] bit(o, x) == bit(occ, x)
}

/// `o` holds only squares of `mask`.
pub open spec fn within(o: u64, mask: u64) -> bool {
    forall|x: int| 0 <= x < 64 && #[trigger] bit(o, x) ==> bit(mask, x)
}

/// Place `i` of the table of `e` holds the attack set of some occupancy of
/// the relevant squares that goes there.
pub open spec fn filled_by(diagonal: bool, sq: int, e: Entry, i: int, v: u64) -> bool {
    exists|o: u64| #[trigger] within(o, e.mask) && magic_index(e, o) == i && is_attack_set(diagonal, sq, o, v)
}

/// Two occupancies of the relevant squares of `e` go to the same place and
/// have different attacks.
pub open spec fn clash(diagonal: bool, sq: int, e: Entry) -> bool {
    exists|o1: u64, o2: u64|
        #[trigger] within(o1, e.mask) && #[trigger] within(o2, e.mask) && magic_index(e, o1) == magic_index(e, o2)
            && exists|t: int| 0 <= t < 64 && slider_target(diagonal, sq, o1, t) != slider_target(diagonal, sq, o2, t)
}

/// Attack sets that differ are those of occupancies with different attacks.
proof fn lemma_attack_sets_differ(diagonal: bool, sq: int, o1: u64, v1: u64, o2: u64, v2: u64)
    requires
        is_attack_set(diagonal, sq, o1, v1),
        is_attack_set(diagonal, sq, o2, v2),
        v1 != v2,
    ensures
        exists|t: int| 0 <= t < 64 && slider_target(diagonal, sq, o1, t) != slider_target(diagonal, sq, o2, t),
{
    if forall|t: int| 0 <= t < 64 ==> #[trigger] bit(v1, t) == bit(v2, t) {
        lemma_bits_ext(v1, v2);
    }
    let t = choose|t: int| 0 <= t < 64 && bit(v1, t) != bit(v2, t);
    assert(slider_target(diagonal, sq, o1, t) != slider_target(diagonal, sq, o2, t));
}

/// Fills the table of `e` for every occupancy that agrees with `occ` off
/// `squares[k..]`: each goes to its place, which takes its attack set when
/// empty. Fails when a place already holds other attacks.
fn fill(
    diagonal: bool,
    sq: Square,
    e: &Entry,
    squares: &Vec<usize>,
    k: usize,
    occ: u64,
    table: &mut Vec<u64>,
) -> (ok: bool)
    requires
        sq.valid(),
        1 <= e.shift <= 13,
        old(table)@.len() == pow2(e.shift as nat),
        k <= squares@.len(),
        forall|i: int| 0 <= i < squares@.len() ==> #[trigger] squares@[i] < 64 && bit(e.mask, squares@[i] as int),
        forall|i: int, j: int| 0 <= i < j < squares@.len() ==> squares@[i] != squares@[j],
        forall|x: int|
            0 <= x < 64 && #[trigger] bit(occ, x) ==> bit(e.mask, x) && !later(squares@, k as int, x),
        forall|i: int| 0 <= i < old(table)@.len() && #[trigger] old(table)@[i] != 0 ==> filled_by(
            diagonal,
            sq.idx as int,
            *e,
            i,
            old(table)@[i],
        ),
    ensures
        final(table)@.len() == old(table)@.len(),
        forall|i: int| 0 <= i < final(table)@.len() && #[trigger] final(table)@[i] != 0 ==> filled_by(
            diagonal,
            sq.idx as int,
            *e,
            i,
            final(table)@[i],
        ),
        !ok ==> clash(diagonal, sq.idx as int, *e),
        forall|i: int| 0 <= i < old(table)@.len() && old(table)@[i] != 0 ==> #[trigger] final(table)@[i] == old(table)@[i],
        ok ==> forall|o: u64|
            #[trigger] agrees(o, occ, e.mask, squares@, k as int) ==> final(table)@[magic_index(*e, o)] != 0
                && is_attack_set(diagonal, sq.idx as int, o, final(table)@[magic_index(*e, o)]),
    decreases squares@.len() - k,
{
    if k == squares.len() {
        let idx = index_of(e, occ);
        let attacks = if diagonal {
            bishop(sq, Bitboard { bitboard: occ })
        } else {
            rook(sq, Bitboard { bitboard: occ })
        };
        proof {
            assert forall|t: int| 0 <= t < 64 implies #[trigger] bit(attacks.bitboard, t) == slider_target(
                diagonal,
                sq.idx as int,
                occ,
                t,
            ) by {
                if diagonal {
                    assert(attacks.has(t) == bishop_target(sq.idx as int, occ, t));
                } else {
                    assert(attacks.has(t) == rook_target(sq.idx as int, occ, t));
                }
            }
            assert(is_attack_set(diagonal, sq.idx as int, occ, attacks.bitboard));
            lemma_attack_set_nonzero(diagonal, sq.idx as int, occ, attacks.bitboard);
        }
        let ghost before = table@;
        proof {
            assert(within(occ, e.mask));
        }
        if table[idx] == 0 {
            table.set(idx, attacks.bitboard);
            proof {
                assert(filled_by(diagonal, sq.idx as int, *e, idx as int, attacks.bitboard));
                assert forall|i: int| 0 <= i < table@.len() && #[trigger] table@[i] != 0 implies filled_by(
                    diagonal,
                    sq.idx as int,
                    *e,
                    i,
                    table@[i],
                ) by {
                    if i != idx as int {
                        assert(table@[i] == before[i]);
                    }
                }
            }
        }
        if table[idx] != attacks.bitboard {
            proof {
                let v = table@[idx as int];
                assert(filled_by(diagonal, sq.idx as int, *e, idx as int, v));
                let o = choose|o: u64| #[trigger] within(o, e.mask) && magic_index(*e, o) == idx as int
                    && is_attack_set(diagonal, sq.idx as int, o, v);
                lemma_attack_sets_differ(diagonal, sq.idx as int, o, v, occ, attacks.bitboard);
                assert(within(o, e.mask) && within(occ, e.mask));
            }
            return false;
        }
        proof {
            assert forall|o: u64| #[trigger] agrees(o, occ, e.mask, squares@, k as int) implies table@[magic_index(*e, o)] != 0
                && is_attack_set(diagonal, sq.idx as int, o, table@[magic_index(*e, o)]) by {
                assert forall|x: int| 0 <= x < 64 implies bit(o, x) == bit(occ, x) by {
                    assert(!later(squares@, k as int, x));
                }
                lemma_bits_ext(o, occ);
            }
        }
        return true;
    }
    let ghost start = table@;
    if !fill(diagonal, sq, e, squares, k + 1, occ, table) {
        return false;
    }
    let ghost middle = table@;
    let s = squares[k];
    let occ2 = occ | (1u64 << (s as u64));
    proof {
        crate::types::bitboard::lemma_single(s as int);
        assert(later(squares@, k as int, s as int));
        assert forall|x: int| 0 <= x < 64 && #[trigger] bit(occ2, x) implies bit(e.mask, x) && !later(
            squares@,
            k + 1,
            x,
        ) by {
            assert(bit(occ2, x) == (bit(occ, x) || x == s));
            if later(squares@, k + 1, x) {
                let i = choose|i: int| k + 1 <= i < squares@.len() && squares@[i] == x;
                if x != s {
                    assert(later(squares@, k as int, x));
                }
            }
        }
    }
    if !fill(diagonal, sq, e, squares, k + 1, occ2, table) {
        return false;
    }
    proof {
        assert forall|o: u64| #[trigger] agrees(o, occ, e.mask, squares@, k as int) implies table@[magic_index(*e, o)] != 0
            && is_attack_set(diagonal, sq.idx as int, o, table@[magic_index(*e, o)]) by {
            if bit(o, s as int) {
                assert forall|x: int| 0 <= x < 64 && !later(squares@, k + 1, x) implies #[trigger] bit(o, x) == bit(occ2, x) by {
                    assert(bit(occ2, x) == (bit(occ, x) || x == s));
                    if x != s {
                        assert(!later(squares@, k as int, x));
                    } else {
                        assert(!bit(occ, x));
                    }
                }
                assert(agrees(o, occ2, e.mask, squares@, k + 1));
            } else {
                assert forall|x: int| 0 <= x < 64 && !later(squares@, k + 1, x) implies #[trigger] bit(o, x) == bit(occ, x) by {
                    if x != s {
                        assert(!later(squares@, k as int, x));
                    } else {
                        assert(!bit(occ, x));
                    }
                }
                assert(agrees(o, occ, e.mask, squares@, k + 1));
                index_bound(*e, o);
                assert(middle[magic_index(*e, o)] != 0);
            }
        }
    }
    true
}

/// Places in the table of `e` are below its length.
proof fn index_bound(e: Entry, o: u64)
    requires
        1 <= e.shift <= 13,
    ensures
        0 <= magic_index(e, o) < pow2(e.shift as nat),
{
    let product = vstd::wrapping::u64_specs::wrapping_mul(o & e.mask, e.magic);
    let k = (64 - e.shift) as u64;
    vstd::bits::lemma_u64_shr_is_div(product, k);
    vstd::arithmetic::power2::lemma_pow2_adds(k as nat, e.shift as nat);
    vstd::arithmetic::power2::lemma2_to64();
    vstd::arithmetic::power2::lemma_pow2_pos(k as nat);
    let d = pow2(k as nat);
    let p = pow2(e.shift as nat);
    assert(product as nat / d < p) by (nonlinear_arith)
        requires
            product < d * p,
            d > 0,
    ;
}

/// The table of square `sq` for a slider, diagonal or straight, with the
/// given magic factor and index bit count: the relevant squares are those
/// it attacks on an empty board less the edges, and each of their
/// occupancies sends its attack set to its place. Nothing when two
/// occupancies with different attacks meet at one place.
pub fn create_entry(diagonal: bool, sq: Square, magic: u64, shift: u64) -> (r: Option<(Entry, Vec<u64>)>)
    requires
        sq.valid(),
        1 <= shift <= 13,
    ensures
        r matches Some((e, t)) ==> {
            &&& e.magic == magic
            &&& e.shift == shift
            &&& e.offset == 0
            &&& e.hashed
            &&& t@.len() == pow2(shift as nat)
            &&& forall|x: int| 0 <= x < 64 ==> #[trigger] bit(e.mask, x) == relevant(diagonal, sq.idx as int, x)
            &&& forall|occ: u64|
                #[trigger] is_attack_set(diagonal, sq.idx as int, occ, t@[magic_index(e, occ)])
        },
        r is None ==> exists|m: u64|
            (forall|x: int| 0 <= x < 64 ==> #[trigger] bit(m, x) == relevant(diagonal, sq.idx as int, x))
                && #[trigger] clash(diagonal, sq.idx as int, Entry { mask: m, magic, shift, offset: 0, hashed: true }),
{
    let file = sq.file();
    let rank = sq.rank();
    let r0 = crate::board::masks::ranks(0);
    let r7 = crate::board::masks::ranks(7);
    let rr = crate::board::masks::ranks(rank);
    let f0 = crate::board::masks::files(0);
    let f7 = crate::board::masks::files(7);
    let ff = crate::board::masks::files(file);
    let outer = r0.or(r7).and(rr.not()).or(f0.or(f7).and(ff.not()));
    let reach = if diagonal {
        bishop(sq, Bitboard { bitboard: 0 })
    } else {
        rook(sq, Bitboard { bitboard: 0 })
    };
    let mask = reach.and(outer.not()).bitboard;
    proof {
        assert forall|x: int| 0 <= x < 64 implies #[trigger] bit(mask, x) == relevant(diagonal, sq.idx as int, x) by {
            if diagonal {
                assert(reach.has(x) == bishop_target(sq.idx as int, 0, x));
            } else {
                assert(reach.has(x) == rook_target(sq.idx as int, 0, x));
            }
            assert(r0.has(x) == (x / 8 == 0));
            assert(r7.has(x) == (x / 8 == 7));
            assert(rr.has(x) == (x / 8 == sq.idx as int / 8));
            assert(f0.has(x) == (x % 8 == 0));
            assert(f7.has(x) == (x % 8 == 7));
            assert(ff.has(x) == (x % 8 == sq.idx as int % 8));
            assert(outer.has(x) == is_edge(sq.idx as int, x));
        }
    }
    let mut size: usize = 1;
    let mut n: u64 = 0;
    proof {
        vstd::arithmetic::power2::lemma2_to64();
    }
    while n < shift
        invariant
            n <= shift <= 13,
            size == pow2(n as nat),
        decreases shift - n,
    {
        proof {
            vstd::arithmetic::power2::lemma2_to64();
            vstd::arithmetic::power2::lemma_pow2_unfold((n + 1) as nat);
        }
        size = size * 2;
        n = n + 1;
    }
    let mut table: Vec<u64> = Vec::new();
    let mut j: usize = 0;
    while j < size
        invariant
            j <= size,
            table@.len() == j,
            forall|i: int| 0 <= i < j ==> #[trigger] table@[i] == 0,
        decreases size - j,
    {
        table.push(0);
        j = j + 1;
    }
    let squares = squares_of(mask);
    let e = Entry { mask, magic, shift, offset: 0, hashed: true };
    proof {
        crate::types::bitboard::lemma_bit_zero(0);
        assert forall|x: int| 0 <= x < 64 implies !#[trigger] bit(0u64, x) by {
            crate::types::bitboard::lemma_bit_zero(x);
        }
    }
    if !fill(diagonal, sq, &e, &squares, 0, 0, &mut table) {
        proof {
            assert(clash(diagonal, sq.idx as int, e));
        }
        return None;
    }
    proof {
        assert forall|occ: u64| #[trigger] is_attack_set(diagonal, sq.idx as int, occ, table@[magic_index(e, occ)]) by {
            let o = occ & mask;
            assert forall|x: int| 0 <= x < 64 implies #[trigger] bit(o & mask, x) == bit(o, x) by {}
            lemma_bits_ext(o & mask, o);
            assert(magic_index(e, occ) == magic_index(e, o));
            assert forall|x: int| 0 <= x < 64 && !later(squares@, 0, x) implies #[trigger] bit(o, x) == bit(0u64, x) by {
                crate::types::bitboard::lemma_bit_zero(x);
                if bit(o, x) {
                    assert(bit(mask, x));
                    let i = choose|i: int| 0 <= i < squares@.len() && squares@[i] == x;
                    assert(later(squares@, 0, x));
                }
            }
            assert(agrees(o, 0, mask, squares@, 0));
            let v = table@[magic_index(e, occ)];
            assert forall|t: int| 0 <= t < 64 implies #[trigger] bit(v, t) == slider_target(diagonal, sq.idx as int, occ, t) by {
                lemma_target_relevant(diagonal, sq.idx as int, occ, mask, t);
            }
        }
    }
    Some((e, table))
}

/// Entry `sq` of `entries`, when hashed, sends `occ` to a place of `table`
/// that holds its attack set.
pub open spec fn entry_holds(entries: Seq<Entry>, table: Seq<u64>, diagonal: bool, sq: int, occ: u64) -> bool {
    let e = entries[sq];
    e.hashed ==> {
        &&& 1 <= e.shift <= 13
        &&& e.offset + magic_index(e, occ) < table.len()
        &&& is_attack_set(diagonal, sq, occ, table[e.offset + magic_index(e, occ)])
    }
}

/// The attack tables of a slider, diagonal or straight: an entry per
/// square and the attack sets of all entries one after the other.
pub struct Magics {
    diagonal: bool,
    entries: Vec<Entry>,
    table: Vec<u64>,
}

impl Magics {
    /// Whether the tables are those of a diagonal slider.
    pub closed spec fn is_diagonal(self) -> bool {
        self.diagonal
    }

    /// Every hashed entry sends every occupancy to its attack set.
    #[verifier::type_invariant]
    spec fn inv(self) -> bool {
        &&& self.entries@.len() == 64
        &&& forall|sq: int, occ: u64| 0 <= sq < 64 ==> #[trigger] entry_holds(self.entries@, self.table@, self.diagonal, sq, occ)
    }

    /// The tables of a slider, diagonal or straight, built with the magic
    /// factors of each square.
    pub fn new(diagonal: bool) -> (r: Self)
        ensures
            r.is_diagonal() == diagonal,
    {
        let mut entries: Vec<Entry> = Vec::new();
        let mut table: Vec<u64> = Vec::new();
        let mut i: usize = 0;
        while i < 64
            invariant
                i <= 64,
                entries@.len() == i,
                forall|sq: int, occ: u64| 0 <= sq < i ==> #[trigger] entry_holds(entries@, table@, diagonal, sq, occ),
            decreases 64 - i,
        {
            let (magic, shift) = if diagonal {
                bishop_magic(i)
            } else {
                rook_magic(i)
            };
            let sq = Square::from_index(i);
            let made = if 1 <= shift && shift <= 13 {
                create_entry(diagonal, sq, magic, shift)
            } else {
                None
            };
            let ghost before_entries = entries@;
            let ghost before_table = table@;
            match made {
                Some((e, part)) => {
                    let offset = table.len();
                    if part.len() > usize::MAX - offset {
                        entries.push(Entry { mask: 0, magic, shift: 1, offset: 0, hashed: false });
                    } else {
                        let mut j: usize = 0;
                        while j < part.len()
                            invariant
                                j <= part@.len(),
                                offset + part@.len() <= usize::MAX,
                                table@.len() == offset + j,
                                offset == before_table.len(),
                                forall|x: int| 0 <= x < offset ==> #[trigger] table@[x] == before_table[x],
                                forall|x: int| 0 <= x < j ==> #[trigger] table@[offset + x] == part@[x],
                            decreases part@.len() - j,
                        {
                            table.push(part[j]);
                            j = j + 1;
                        }
                        let placed = Entry { mask: e.mask, magic: e.magic, shift: e.shift, offset, hashed: true };
                        entries.push(placed);
                        proof {
                            assert forall|occ: u64| #[trigger] entry_holds(entries@, table@, diagonal, i as int, occ) by {
                                assert(magic_index(placed, occ) == magic_index(e, occ));
                                index_bound(e, occ);
                                assert(is_attack_set(diagonal, i as int, occ, part@[magic_index(e, occ)]));
                                assert(table@[offset + magic_index(e, occ)] == part@[magic_index(e, occ)]);
                            }
                        }
                    }
                },
                None => {
                    entries.push(Entry { mask: 0, magic, shift: 1, offset: 0, hashed: false });
                },
            }
            proof {
                assert forall|sq: int, occ: u64| 0 <= sq < i + 1 implies #[trigger] entry_holds(entries@, table@, diagonal, sq, occ) by {
                    if sq < i {
                        assert(entries@[sq] == before_entries[sq]);
                        assert(entry_holds(before_entries, before_table, diagonal, sq, occ));
                        let e = before_entries[sq];
                        if e.hashed {
                            assert(table@[e.offset + magic_index(e, occ)] == before_table[e.offset + magic_index(e, occ)]);
                        }
                    }
                }
            }
            i = i + 1;
        }
        Magics { diagonal, entries, table }
    }

    /// The squares a slider on `sq` attacks with `occupied` occupied, read
    /// from the table of `sq` (walked when `sq` is not hashed).
    pub fn get(&self, sq: Square, occupied: Bitboard) -> (r: Bitboard)
        requires
            sq.valid(),
        ensures
            forall|t: int|
                0 <= t < 64 ==> #[trigger] r.has(t) == slider_target(self.is_diagonal(), sq.idx as int, occupied.bitboard, t),
    {
        proof {
            use_type_invariant(self);
        }
        if sq.idx >= self.entries.len() {
            return if self.diagonal {
                bishop(sq, occupied)
            } else {
                rook(sq, occupied)
            };
        }
        let e = self.entries[sq.idx];
        if e.hashed {
            proof {
                assert(e == self.entries@[sq.idx as int]);
                assert(entry_holds(self.entries@, self.table@, self.diagonal, sq.idx as int, occupied.bitboard));
            }
            let j = index_of(&e, occupied.bitboard);
            let n = self.table.len();
            assert(e.offset + j < n);
            let i = e.offset + j;
            Bitboard { bitboard: self.table[i] }
        } else if self.diagonal {
            bishop(sq, occupied)
        } else {
            rook(sq, occupied)
        }
    }
}

/// The attack tables of bishops and rooks.
pub struct Sliders {
    rook: Magics,
    bishop: Magics,
}

impl Sliders {
    /// The bishop tables are diagonal, the rook tables straight.
    #[verifier::type_invariant]
    spec fn inv(self) -> bool {
        &&& !self.rook.is_diagonal()
        &&& self.bishop.is_diagonal()
    }

    /// Builds the tables of both sliders.
    pub fn new() -> (r: Self) {
        Sliders { rook: Magics::new(false), bishop: Magics::new(true) }
    }

    /// The squares a rook on `sq` attacks with `occupied` occupied.
    pub fn rook(&self, sq: Square, occupied: Bitboard) -> (r: Bitboard)
        requires
            sq.valid(),
        ensures
            forall|t: int| 0 <= t < 64 ==> #[trigger] r.has(t) == rook_target(sq.idx as int, occupied.bitboard, t),
    {
        proof {
            use_type_invariant(self);
        }
        self.rook.get(sq, occupied)
    }

    /// The squares a bishop on `sq` attacks with `occupied` occupied.
    pub fn bishop(&self, sq: Square, occupied: Bitboard) -> (r: Bitboard)
        requires
            sq.valid(),
        ensures
            forall|t: int| 0 <= t < 64 ==> #[trigger] r.has(t) == bishop_target(sq.idx as int, occupied.bitboard, t),
    {
        proof {
            use_type_invariant(self);
        }
        self.bishop.get(sq, occupied)
    }
}
} // verus!
