use kopyto::board::Board;
use kopyto::types::{Move, Promotion};

fn make_move_str(board: &mut Board, from: &str, to: &str) {
    board.make_move(Move::from_str(from, to));
}

fn assert_position(board: &Board, fen: &str) {
    let actual = board.export_fen();
    assert_eq!(actual, fen);
}

fn uci(board: &mut Board, m: &str) {
    board.make_move(Move::from_uci(m));
}

#[test]
fn board_test_starting_position() {
        assert_position(&Board::from_starting_position(), "rnbqkbnr/pppppppp/8/8/8/8/PPPPPPPP/RNBQKBNR w KQkq - 0 1");
    }

#[test]
fn board_test_capture_moves() {
        let mut board = Board::from_fen("r2qkbnr/ppp1pppp/2n5/3p1b2/1P2P3/2N5/P1PP1PPP/R1BQKBNR w KQkq - 1 4");
        make_move_str(&mut board, "e4", "f5");
        assert_position(&board, "r2qkbnr/ppp1pppp/2n5/3p1P2/1P6/2N5/P1PP1PPP/R1BQKBNR b KQkq - 0 4");
        make_move_str(&mut board, "c6", "b4");
        assert_position(&board, "r2qkbnr/ppp1pppp/8/3p1P2/1n6/2N5/P1PP1PPP/R1BQKBNR w KQkq - 0 5");
        make_move_str(&mut board, "c3", "d5");
        assert_position(&board, "r2qkbnr/ppp1pppp/8/3N1P2/1n6/8/P1PP1PPP/R1BQKBNR b KQkq - 0 5");
        make_move_str(&mut board, "d8", "d5");
        assert_position(&board, "r3kbnr/ppp1pppp/8/3q1P2/1n6/8/P1PP1PPP/R1BQKBNR w KQkq - 0 6");
        board.unmake_move();
        assert_position(&board, "r2qkbnr/ppp1pppp/8/3N1P2/1n6/8/P1PP1PPP/R1BQKBNR b KQkq - 0 5");
        board.unmake_move();
        assert_position(&board, "r2qkbnr/ppp1pppp/8/3p1P2/1n6/2N5/P1PP1PPP/R1BQKBNR w KQkq - 0 5");
        board.unmake_move();
        assert_position(&board, "r2qkbnr/ppp1pppp/2n5/3p1P2/1P6/2N5/P1PP1PPP/R1BQKBNR b KQkq - 0 4");
        board.unmake_move();
        assert_position(&board, "r2qkbnr/ppp1pppp/2n5/3p1b2/1P2P3/2N5/P1PP1PPP/R1BQKBNR w KQkq - 1 4");
    }

#[test]
fn board_test_castle_moves() {
        let mut board = Board::from_fen("r3k2r/8/8/8/8/8/8/R3K2R w KQkq - 0 1");
        make_move_str(&mut board, "e1", "g1");
        assert_position(&board, "r3k2r/8/8/8/8/8/8/R4RK1 b kq - 1 1");
        make_move_str(&mut board, "h8", "h2");
        assert_position(&board, "r3k3/8/8/8/8/8/7r/R4RK1 w q - 2 2");
        make_move_str(&mut board, "f1", "f2");
        assert_position(&board, "r3k3/8/8/8/8/8/5R1r/R5K1 b q - 3 2");
        make_move_str(&mut board, "e8", "c8");
        assert_position(&board, "2kr4/8/8/8/8/8/5R1r/R5K1 w - - 4 3");
        board.unmake_move();
        assert_position(&board, "r3k3/8/8/8/8/8/5R1r/R5K1 b q - 3 2");
        board.unmake_move();
        assert_position(&board, "r3k3/8/8/8/8/8/7r/R4RK1 w q - 2 2");
        board.unmake_move();
        assert_position(&board, "r3k2r/8/8/8/8/8/8/R4RK1 b kq - 1 1");
        board.unmake_move();
        assert_position(&board, "r3k2r/8/8/8/8/8/8/R3K2R w KQkq - 0 1");
    }

#[test]
fn board_test_promotion() {
        let mut board = Board::from_fen("rnbqkbnr/p1pppppP/8/8/8/8/PPpPPP1P/RNBQKBNR w KQkq - 0 5");
        board.make_move(Move::from_str_prom("h7", "g8", Promotion::Queen));
        assert_position(&board, "rnbqkbQr/p1ppppp1/8/8/8/8/PPpPPP1P/RNBQKBNR b KQkq - 0 5");
        board.make_move(Move::from_str_prom("c2", "d1", Promotion::Knight));
        assert_position(&board, "rnbqkbQr/p1ppppp1/8/8/8/8/PP1PPP1P/RNBnKBNR w KQkq - 0 6");
        board.unmake_move();
        assert_position(&board, "rnbqkbQr/p1ppppp1/8/8/8/8/PPpPPP1P/RNBQKBNR b KQkq - 0 5");
        board.unmake_move();
        assert_position(&board, "rnbqkbnr/p1pppppP/8/8/8/8/PPpPPP1P/RNBQKBNR w KQkq - 0 5");
    }

#[test]
fn board_test_en_passant() {
        let mut board = Board::from_fen("rnbqkbnr/pppp1pp1/7p/3Pp3/8/8/PPP1PPPP/RNBQKBNR w KQkq e6 0 3");
        make_move_str(&mut board, "d5", "e6");
        assert_position(&board, "rnbqkbnr/pppp1pp1/4P2p/8/8/8/PPP1PPPP/RNBQKBNR b KQkq - 0 3");
        make_move_str(&mut board, "d7", "d5");
        assert_position(&board, "rnbqkbnr/ppp2pp1/4P2p/3p4/8/8/PPP1PPPP/RNBQKBNR w KQkq - 0 4");
        make_move_str(&mut board, "e6", "e7");
        assert_position(&board, "rnbqkbnr/ppp1Ppp1/7p/3p4/8/8/PPP1PPPP/RNBQKBNR b KQkq - 0 4");
        make_move_str(&mut board, "d5", "d4");
        assert_position(&board, "rnbqkbnr/ppp1Ppp1/7p/8/3p4/8/PPP1PPPP/RNBQKBNR w KQkq - 0 5");
        make_move_str(&mut board, "e2", "e4");
        assert_position(&board, "rnbqkbnr/ppp1Ppp1/7p/8/3pP3/8/PPP2PPP/RNBQKBNR b KQkq e3 0 5");
        make_move_str(&mut board, "d4", "e3");
        assert_position(&board, "rnbqkbnr/ppp1Ppp1/7p/8/8/4p3/PPP2PPP/RNBQKBNR w KQkq - 0 6");
        board.unmake_move();
        assert_position(&board, "rnbqkbnr/ppp1Ppp1/7p/8/3pP3/8/PPP2PPP/RNBQKBNR b KQkq e3 0 5");
        board.unmake_move();
        assert_position(&board, "rnbqkbnr/ppp1Ppp1/7p/8/3p4/8/PPP1PPPP/RNBQKBNR w KQkq - 0 5");
        board.unmake_move();
        assert_position(&board, "rnbqkbnr/ppp1Ppp1/7p/3p4/8/8/PPP1PPPP/RNBQKBNR b KQkq - 0 4");
        board.unmake_move();
        assert_position(&board, "rnbqkbnr/ppp2pp1/4P2p/3p4/8/8/PPP1PPPP/RNBQKBNR w KQkq - 0 4");
        board.unmake_move();
        assert_position(&board, "rnbqkbnr/pppp1pp1/4P2p/8/8/8/PPP1PPPP/RNBQKBNR b KQkq - 0 3");
        board.unmake_move();
        assert_position(&board, "rnbqkbnr/pppp1pp1/7p/3Pp3/8/8/PPP1PPPP/RNBQKBNR w KQkq e6 0 3");
    }

#[test]
fn board_bug_1() {
            // after: 1. Nf3 a6 2. Rg1 and undoing the last move, the bishop on f1 disappears
            // (bug in handling castling during unmake)
            let mut board = Board::from_starting_position();
            uci(&mut board, "g1f3");
            uci(&mut board, "a7a6");
            assert_position(&board, "rnbqkbnr/1ppppppp/p7/8/8/5N2/PPPPPPPP/RNBQKB1R w KQkq - 0 2");
            uci(&mut board, "h1g1");
            assert_position(&board, "rnbqkbnr/1ppppppp/p7/8/8/5N2/PPPPPPPP/RNBQKBR1 b Qkq - 1 2");
            board.unmake_move();
            assert_position(&board, "rnbqkbnr/1ppppppp/p7/8/8/5N2/PPPPPPPP/RNBQKB1R w KQkq - 0 2");
        }

#[test]
fn board_bug_2() {
            // kiwipete e1d1 e8c8 d1c1 (undo) a1b1 crash
            let mut board = Board::from_fen("r3k2r/p1ppqpb1/bn2pnp1/3PN3/1p2P3/2N2Q1p/PPPBBPPP/R3K2R w KQkq - 0 1");
            uci(&mut board, "e1d1");
            assert_position(&board, "r3k2r/p1ppqpb1/bn2pnp1/3PN3/1p2P3/2N2Q1p/PPPBBPPP/R2K3R b kq - 1 1");
            uci(&mut board, "e8c8");
            assert_position(&board, "2kr3r/p1ppqpb1/bn2pnp1/3PN3/1p2P3/2N2Q1p/PPPBBPPP/R2K3R w - - 2 2");
            uci(&mut board, "d1c1");
            assert_position(&board, "2kr3r/p1ppqpb1/bn2pnp1/3PN3/1p2P3/2N2Q1p/PPPBBPPP/R1K4R b - - 3 2");
            board.unmake_move();
            assert_position(&board, "2kr3r/p1ppqpb1/bn2pnp1/3PN3/1p2P3/2N2Q1p/PPPBBPPP/R2K3R w - - 2 2");
            uci(&mut board, "a1b1");
            assert_position(&board, "2kr3r/p1ppqpb1/bn2pnp1/3PN3/1p2P3/2N2Q1p/PPPBBPPP/1R1K3R b - - 3 2");
        }

#[test]
fn board_bug_3() {
            // kiwipete e2d1 a6f1 (undo) crash
            let mut board = Board::from_fen("r3k2r/p1ppqpb1/bn2pnp1/3PN3/1p2P3/2N2Q1p/PPPBBPPP/R3K2R w KQkq - 0 1");
            uci(&mut board, "e2d1");
            assert_position(&board, "r3k2r/p1ppqpb1/bn2pnp1/3PN3/1p2P3/2N2Q1p/PPPB1PPP/R2BK2R b KQkq - 1 1");
            uci(&mut board, "a6f1");
            assert_position(&board, "r3k2r/p1ppqpb1/1n2pnp1/3PN3/1p2P3/2N2Q1p/PPPB1PPP/R2BKb1R w KQkq - 2 2");
            board.unmake_move();
            assert_position(&board, "r3k2r/p1ppqpb1/bn2pnp1/3PN3/1p2P3/2N2Q1p/PPPB1PPP/R2BK2R b KQkq - 1 1");
        }

#[test]
fn bug_4() {
            // r1bqkbnr/pppp2pp/8/4pp2/8/2NnP1PP/PPPPNP2/R1BQKB1R w KQkq - 4 3 should detect in check
            let board = Board::from_fen("r1bqkbnr/pppp2pp/8/4pp2/8/2NnP1PP/PPPPNP2/R1BQKB1R w KQkq - 4 3");
            assert_eq!(board.in_check(), true);
        }
