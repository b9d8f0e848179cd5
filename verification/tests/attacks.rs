use kopyto::board::{Board, FenConsumer};
use kopyto::types::Side;
use kopyto::moves_generation::generate_all;

#[test]
fn attacks_of_a_rook_and_king() {
    let board = Board::from_fen("4k3/8/8/8/8/8/8/4R2K b - - 0 1");
    let attacks = board.get_attacks(Side::White);
    // The rook sees up the e-file to the black king and through it.
    for square in [12u32, 20, 28, 36, 44, 52, 60] {
        assert!(attacks.bitboard & (1u64 << square) != 0, "{}", square);
    }
    // The king on h1 covers g1, g2 and h2.
    for square in [6u32, 14, 15] {
        assert!(attacks.bitboard & (1u64 << square) != 0, "{}", square);
    }
    assert!(attacks.bitboard & (1u64 << 35) == 0);
    assert!(board.in_check());
    assert!(!board.in_checkmate());
}

#[test]
fn checkmate_is_seen() {
    let board = Board::from_fen("R5k1/5ppp/8/8/8/8/8/6K1 b - - 0 1");
    assert!(board.in_check());
    assert!(board.in_checkmate());
    let quiet = Board::from_fen("6k1/5ppp/8/8/8/8/8/R5K1 b - - 0 1");
    assert!(!quiet.in_check());
    assert!(!quiet.in_checkmate());
}

fn king_steps(fen: &str) -> usize {
    let board = Board::from_fen(fen);
    let side = board.side_to_move();
    let king = board.kings[side.idx()].bitboard.trailing_zeros() as usize;
    let mut steps = 0;
    for m in generate_all(&board) {
        let from = m.get_from().idx;
        let to = m.get_to().idx;
        let (df, dr) = ((from % 8) as i64 - (to % 8) as i64, (from / 8) as i64 - (to / 8) as i64);
        if from != king || df.abs() > 1 || dr.abs() > 1 {
            continue;
        }
        steps += 1;
        let mut after = board.clone();
        after.make_move(m);
        let attacks = after.get_attacks(after.side_to_move());
        assert!(attacks.bitboard & (1u64 << to) == 0, "{} {}", fen, to);
    }
    steps
}

#[test]
fn king_steps_leave_the_king_unattacked() {
    // In check from the rook on e1: e7 stays on the rook's file.
    assert_eq!(king_steps("4k3/8/8/8/8/8/8/4R2K b - - 0 1"), 4);
    // Kings in opposition: c4, d4 and e4 are covered by the black king.
    assert_eq!(king_steps("8/8/8/3k4/8/3K4/8/8 w - - 0 1"), 5);
    // The king takes the undefended rook on c2 but not the pawn on c3,
    // which the rook defends; a2 and c1 lie on the rook's lines.
    assert_eq!(king_steps("8/8/8/8/8/2p5/1Kr5/7k w - - 0 1"), 5);
    king_steps("r3k2r/p1ppqpb1/bn2pnp1/3PN3/1p2P3/2N2Q1p/PPPBBPPP/R3K2R w KQkq - 0 1");
    king_steps("r3k2r/p1ppqpb1/bn2pnp1/3PN3/1p2P3/2N2Q1p/PPPBBPPP/R3K2R b KQkq - 0 1");
}

fn castles(fen: &str) -> (bool, bool) {
    let board = Board::from_fen(fen);
    let moves = generate_all(&board);
    let kingside = moves.iter().any(|m| m.get_from().idx == 4 && m.get_to().idx == 6);
    let queenside = moves.iter().any(|m| m.get_from().idx == 4 && m.get_to().idx == 2);
    (kingside, queenside)
}

#[test]
fn castling_keeps_out_of_attack() {
    assert_eq!(castles("4k3/8/8/8/8/8/8/R3K2R w KQ - 0 1"), (true, true));
    // The rook on f8 covers f1, which the king crosses castling kingside.
    assert_eq!(castles("4kr2/8/8/8/8/8/8/R3K2R w KQ - 0 1"), (false, true));
    // The rook on d8 covers d1, crossed castling queenside.
    assert_eq!(castles("3rk3/8/8/8/8/8/8/R3K2R w KQ - 0 1"), (true, false));
    // The rook on g8 covers g1, where the king lands castling kingside.
    assert_eq!(castles("4k1r1/8/8/8/8/8/8/R3K2R w KQ - 0 1"), (false, true));
    // No castling out of check.
    assert_eq!(castles("k3r3/8/8/8/8/8/8/R3K2R w KQ - 0 1"), (false, false));
}
