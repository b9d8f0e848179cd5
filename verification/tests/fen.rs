use kopyto::board::{Board, FenConsumer, FenProducer};
use kopyto::types::Move;

#[test]
fn fen_reads_back_what_it_writes() {
    let mut board = Board::from_starting_position();
    for m in ["e2e4", "c7c5", "g1f3", "d7d6", "d2d4", "c5d4", "f3d4", "g8f6", "b1c3", "a7a6"] {
        board.make_move(Move::from_uci(m));
        let text = board.export_fen();
        let read = Board::from_fen(&text);
        assert_eq!(read.export_fen(), text);
        assert_eq!(read.side_to_move(), board.side_to_move());
        assert_eq!(read.half_moves_clock, board.half_moves_clock);
        assert_eq!(read.full_moves_count, board.full_moves_count);
    }
}

#[test]
fn fen_reads_en_passant_and_rights() {
    let text = "rnbqkbnr/pp1ppppp/8/2pP4/8/8/PPP1PPPP/RNBQKBNR w Kq c6 0 3";
    let board = Board::from_fen(text);
    assert_eq!(board.export_fen(), text);
    assert_eq!(board.castle_kingside, [true, false]);
    assert_eq!(board.castle_queenside, [false, true]);
    assert_ne!(board.en_passant.bitboard, 0);
}

#[test]
fn fen_placement_alone() {
    let board = Board::from_fen("8/8/8/8/8/8/8/4K2k");
    assert_eq!(board.export_fen(), "8/8/8/8/8/8/8/4K2k w KQkq - 0 1");
}
