use kopyto::board::magics::{bishop, create_entry, rook, Sliders};
use kopyto::types::{Bitboard, Square};

fn occupancies() -> Vec<u64> {
    let mut result = vec![0u64, u64::MAX, 0x0000_0010_0800_0000, 0x00ff_0000_0000_ff00];
    let mut x: u64 = 0x9e37_79b9_7f4a_7c15;
    for _ in 0..200 {
        x ^= x << 13;
        x ^= x >> 7;
        x ^= x << 17;
        result.push(x & (x >> 3));
    }
    result
}

#[test]
fn magic_tables_match_ray_walks() {
    let sliders = Sliders::new();
    for idx in 0..64usize {
        let sq = Square { idx };
        for occ in occupancies() {
            let occupied = Bitboard { bitboard: occ };
            assert_eq!(sliders.rook(sq, occupied).bitboard, rook(sq, occupied).bitboard, "rook {} {:x}", idx, occ);
            assert_eq!(sliders.bishop(sq, occupied).bitboard, bishop(sq, occupied).bitboard, "bishop {} {:x}", idx, occ);
        }
    }
}

#[test]
fn magic_entries_are_built_for_the_known_factors() {
    // The rook on a1 with its factor and 13 index bits, the bishop on d4
    // with its factor and 10 index bits: both tables build without clash.
    let rook_a1 = create_entry(false, Square { idx: 0 }, 0xc6aefc26577e46a0, 13);
    assert!(rook_a1.is_some());
    let (entry, table) = rook_a1.unwrap();
    assert_eq!(table.len(), 1 << 13);
    // The relevant squares of a1: b1..g1 and a2..a7.
    assert_eq!(entry.mask, 0x0001_0101_0101_017e);
    let bishop_d4 = create_entry(true, Square { idx: 27 }, 0x9e6e440042002e00, 10);
    assert!(bishop_d4.is_some());
    // A factor of zero sends every occupancy to the first place, where
    // different attacks clash.
    assert!(create_entry(false, Square { idx: 0 }, 0, 4).is_none());
}
