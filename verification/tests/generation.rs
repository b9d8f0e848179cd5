use kopyto::board::Board;
use kopyto::moves_generation::generate_all;
use kopyto::types::{Bitboard, Move, Promotion};

fn mv(from: &str, to: &str) -> Move {
    Move::from_str(from, to)
}

fn mvp(from: &str, to: &str, promotion: Promotion) -> Move {
    Move::from_str_prom(from, to, promotion)
}

fn generate_moves_for(board: &Board, mask: Bitboard) -> Vec<Move> {
    let mut moves = generate_all(board);
    moves.retain(|m| m.get_from() == mask.peek());
    moves
}

fn move_generation_comparison(mut generated: Vec<Move>, mut expected: Vec<Move>) {
    generated.sort_unstable();
    expected.sort_unstable();
    assert_eq!(generated, expected);
}

fn piece_move_generation_test(fen: &str, file: usize, rank: usize, expected: Vec<Move>) {
    println!("-- Move generation test at position {}", fen);
    let board = Board::from_fen(fen);
    let moves = generate_moves_for(&board, Bitboard::from_coords(file, rank));
    move_generation_comparison(moves, expected);
}

#[test]
fn moves_generation_basic_moves() {    {
            piece_move_generation_test(
                "4k3/2p5/8/8/8/3P4/2P5/7K w - - 0 1",
                2,
                1,
                vec![mv("c2", "c3"), mv("c2", "c4")],
            );
            piece_move_generation_test("4k3/2p5/8/8/8/3P4/2P5/7K w - - 0 1", 3, 2, vec![mv("d3", "d4")]);
            piece_move_generation_test(
                "4k3/2p5/8/8/8/3P4/2P5/7K b - - 0 1",
                2,
                6,
                vec![mv("c7", "c6"), mv("c7", "c5")],
            );
            }

    {
            piece_move_generation_test(
                "7k/8/3n4/8/2N5/8/8/7K w - - 0 1",
                2,
                3,
                vec![
                    mv("c4", "b6"),
                    mv("c4", "d6"),
                    mv("c4", "a5"),
                    mv("c4", "e5"),
                    mv("c4", "a3"),
                    mv("c4", "e3"),
                    mv("c4", "b2"),
                    mv("c4", "d2"),
                ],
            );
            piece_move_generation_test(
                "7k/8/1Q1n4/8/2N5/P3P3/1P1P4/7K w - - 0 1",
                2,
                3,
                vec![mv("c4", "d6"), mv("c4", "a5"), mv("c4", "e5")],
            );
            piece_move_generation_test(
                "7k/8/1Q1n4/8/2N5/P3P3/1P1P4/7K b - - 0 1",
                3,
                5,
                vec![
                    mv("d6", "c8"),
                    mv("d6", "e8"),
                    mv("d6", "b7"),
                    mv("d6", "f7"),
                    mv("d6", "b5"),
                    mv("d6", "f5"),
                    mv("d6", "c4"),
                    mv("d6", "e4"),
                ],
            );
            }

    {
            piece_move_generation_test(
                "8/p6k/8/8/8/8/1K6/8 w - - 0 1",
                1,
                1,
                vec![
                    mv("b2", "a1"),
                    mv("b2", "a2"),
                    mv("b2", "a3"),
                    mv("b2", "b1"),
                    mv("b2", "b3"),
                    mv("b2", "c1"),
                    mv("b2", "c2"),
                    mv("b2", "c3"),
                ],
            );
            piece_move_generation_test(
                "8/p6k/8/8/8/8/1K6/8 b - - 0 1",
                7,
                6,
                vec![
                    mv("h7", "g8"),
                    mv("h7", "h8"),
                    mv("h7", "g7"),
                    mv("h7", "g6"),
                    mv("h7", "h6"),
                ],
            );
            piece_move_generation_test(
                "7k/p7/8/8/8/8/8/K7 w - - 4 3",
                0,
                0,
                vec![mv("a1", "a2"), mv("a1", "b2"), mv("a1", "b1")],
            );
            }
}

#[test]
fn moves_generation_blockade() {
            piece_move_generation_test("rnbqk1nr/ppp1pppp/8/4b3/4P3/3p3R/PPPP1PPP/RNBQKBN1 w Qkq - 0 1", 4, 3, vec![]);
            piece_move_generation_test("rnbqk1nr/ppp1pppp/8/4b3/4P3/3p3R/PPPP1PPP/RNBQKBN1 w Qkq - 0 1", 3, 1, vec![]);
            piece_move_generation_test("rnbqk1nr/ppp1pppp/8/4b3/4P3/3p3R/PPPP1PPP/RNBQKBN1 w Qkq - 0 1", 7, 1, vec![]);
        }

#[test]
fn moves_generation_captures() {
            piece_move_generation_test(
                "rnbqkbnr/pppp1ppp/8/4p3/3P4/8/PPP1PPPP/RNBQKBNR w KQkq - 0 1",
                3,
                3,
                vec![mv("d4", "d5"), mv("d4", "e5")],
            );
            piece_move_generation_test(
                "rnbqk2r/pppppppp/8/3n1b2/4P3/8/PPPP1PPP/RNBQKBNR w KQkq - 0 1",
                4,
                3,
                vec![mv("e4", "d5"), mv("e4", "e5"), mv("e4", "f5")],
            );
            piece_move_generation_test(
                "rnbqk2r/pppppppp/8/3nRb2/4P3/8/PPPP1PPP/RNBQKBN1 w Qkq - 0 1",
                4,
                3,
                vec![mv("e4", "d5"), mv("e4", "f5")],
            );
            piece_move_generation_test("rnbqk2r/pppp1ppp/4p3/3nRP2/4P3/8/PPPP2PP/RNBQKBN1 b Qkq - 0 1", 4, 5, vec![]);
            piece_move_generation_test(
                "rnbqk2r/pppp2pp/7R/Pp5p/P6n/8/PPPP2PP/RNBQKBN1 w Qkq - 0 1",
                0,
                3,
                vec![mv("a4", "b5")],
            );
            piece_move_generation_test(
                "rnbqk2r/pppp2pp/7R/Pp5p/P6n/8/PPPP2PP/RNBQKBN1 b Qkq - 0 1",
                0,
                6,
                vec![mv("a7", "a6")],
            );
        }

#[test]
fn moves_generation_promotions() {
            piece_move_generation_test(
                "8/3P4/8/8/8/8/8/k6K w - - 0 1",
                3,
                6,
                vec![
                    mvp("d7", "d8", Promotion::Knight),
                    mvp("d7", "d8", Promotion::Bishop),
                    mvp("d7", "d8", Promotion::Rook),
                    mvp("d7", "d8", Promotion::Queen),
                ],
            );
            piece_move_generation_test(
                "rnbqkbnr/pPpppppp/8/8/8/8/PPPP1PPP/RNBQKBNR w KQkq - 0 1",
                1,
                6,
                vec![
                    mvp("b7", "a8", Promotion::Queen),
                    mvp("b7", "a8", Promotion::Rook),
                    mvp("b7", "a8", Promotion::Bishop),
                    mvp("b7", "a8", Promotion::Knight),
                    mvp("b7", "c8", Promotion::Queen),
                    mvp("b7", "c8", Promotion::Rook),
                    mvp("b7", "c8", Promotion::Bishop),
                    mvp("b7", "c8", Promotion::Knight),
                ],
            );
        }

#[test]
fn moves_generation_en_passant() {
            piece_move_generation_test(
                "rnbqkbnr/pp1pp1pp/8/1Pp2p2/8/8/P1PPPPPP/RNBQKBNR w KQkq c6 0 3",
                1,
                4,
                vec![mv("b5", "b6"), mv("b5", "c6")],
            );
            piece_move_generation_test(
                "rnbqkbnr/p2pp1pp/1p6/1Pp2p2/8/3P4/P1P1PPPP/RNBQKBNR w KQkq c6 0 4",
                1,
                4,
                vec![mv("b5", "c6")],
            );
            piece_move_generation_test(
                "rnbqkb1r/p2pp1pp/1pP2n2/8/5pP1/3P1N2/P1P1PP1P/RNBQKB1R b KQkq g3 0 6",
                5,
                3,
                vec![mv("f4", "g3")],
            );
            piece_move_generation_test(
                "rnbqkbnr/1ppp1ppp/8/3PpP2/p7/8/PPP1P1PP/RNBQKBNR w KQkq e6 0 5",
                3,
                4,
                vec![mv("d5", "d6"), mv("d5", "e6")],
            );
            piece_move_generation_test(
                "rnbqkbnr/1ppp1ppp/8/3PpP2/p7/8/PPP1P1PP/RNBQKBNR w KQkq e6 0 5",
                5,
                4,
                vec![mv("f5", "e6"), mv("f5", "f6")],
            );
            piece_move_generation_test("8/2p5/3p4/KP5r/1R2Pp1k/8/6P1/8 b - e3 0 1", 5, 3, vec![mv("f4", "f3")]);
        }

#[test]
fn moves_generation_edge_moves() {
            piece_move_generation_test(
                "n6k/8/8/8/4P3/P2P4/1P6/7K b - - 2 4",
                0,
                7,
                vec![mv("a8", "c7"), mv("a8", "b6")],
            );
            piece_move_generation_test(
                "7k/1n6/8/8/4P3/P2P4/1P6/7K b - - 10 8",
                1,
                6,
                vec![
                    mv("b7", "d8"),
                    mv("b7", "d6"),
                    mv("b7", "c5"),
                    mv("b7", "a5"),
                ],
            );
            piece_move_generation_test(
                "rnbqkbnr/1ppppppp/p7/8/8/7N/PPPPPPPP/RNBQKB1R w KQkq - 0 2",
                7,
                2,
                vec![mv("h3", "g5"), mv("h3", "f4"), mv("h3", "g1")],
            );
        }

#[test]
fn moves_generation_castling() {
            piece_move_generation_test(
                "rn2kb1r/pppppppp/8/8/8/8/PPPPPPPP/R3K2R w KQkq - 0 1",
                4,
                0,
                vec![
                    mv("e1", "d1"),
                    mv("e1", "f1"),
                    mv("e1", "g1"),
                    mv("e1", "c1"),
                ],
            );
            piece_move_generation_test(
                "rn2kb1r/pppppppp/8/8/8/8/PPPPPPPP/R3K2R w Qkq - 0 1",
                4,
                0,
                vec![mv("e1", "d1"), mv("e1", "f1"), mv("e1", "c1")],
            );
            piece_move_generation_test(
                "rn2kb1r/pppppppp/8/8/8/8/PPPPPPPP/R3K2R w Kkq - 0 1",
                4,
                0,
                vec![mv("e1", "d1"), mv("e1", "f1"), mv("e1", "g1")],
            );
            piece_move_generation_test(
                "rn2kb1r/pppppppp/8/8/8/8/PPPPPPPP/R3K2R w q - 0 1",
                4,
                0,
                vec![mv("e1", "d1"), mv("e1", "f1")],
            );
            piece_move_generation_test(
                "rn2kb1r/pppppppp/8/8/8/8/PPPPPPPP/R3K2R b kq - 0 1",
                4,
                7,
                vec![mv("e8", "d8")],
            );
            piece_move_generation_test(
                "r3k2r/p1ppqpb1/Bn2pnp1/3PN3/1p2P3/2N2Q1p/PPPB1PPP/R3K2R b KQkq - 0 1",
                4,
                7,
                vec![mv("e8", "d8"), mv("e8", "f8"), mv("e8", "g8")],
            );
            piece_move_generation_test(
                "r3k2r/p1ppqpb1/1n2pnp1/3PN3/1p2P3/2N2Q1P/PPPBbP1P/R3K2R w KQkq - 0 2",
                4,
                0,
                vec![mv("e1", "e2")],
            );
            piece_move_generation_test(
                "r3k2r/p1ppqpb1/1n2pnp1/3PN3/1p2P3/2N2Q1p/PPPB1PPP/R2BKb1R w KQkq - 2 2",
                4,
                0,
                vec![mv("e1", "f1")],
            );
            piece_move_generation_test(
                "r1B1k2r/p1ppqpb1/1n2pnp1/3PN3/4P3/2p2Q1p/PPPB1PPP/R3K2R b KQkq - 1 2",
                4,
                7,
                vec![mv("e8", "d8"), mv("e8", "f8"), mv("e8", "g8")],
            );
        }

#[test]
fn moves_generation_check_evasion() {
            piece_move_generation_test(
                "rn2k1nr/ppp3pp/8/2P2pK1/P6P/4b1p1/4P3/1N3q2 w kq - 3 21",
                6,
                4,
                vec![mv("g5", "h5")],
            );
        }

#[test]
fn moves_generation_from_position() {
        let mut board = Board::from_starting_position();

        board.make_move(Move::from_uci("c2c3"));
        board.make_move(Move::from_uci("d7d6"));
        board.make_move(Move::from_uci("d1a4"));

        move_generation_comparison(
            generate_all(&board),
            vec![
                mv("b7", "b5"),
                mv("b8", "c6"),
                mv("b8", "d7"),
                mv("c7", "c6"),
                mv("c8", "d7"),
                mv("d8", "d7"),
            ],
        );
    }

#[test]
fn movegen_basic_moves() {
            piece_move_generation_test(
                "4k3/2p5/8/8/8/3P4/2P5/7K w - - 0 1",
                2,
                1,
                vec![mv("c2", "c3"), mv("c2", "c4")],
            );
            piece_move_generation_test(
                "4k3/2p5/8/8/8/3P4/2P5/7K w - - 0 1",
                3,
                2,
                vec![mv("d3", "d4")],
            );
            piece_move_generation_test(
                "4k3/2p5/8/8/8/3P4/2P5/7K b - - 0 1",
                2,
                6,
                vec![mv("c7", "c6"), mv("c7", "c5")],
            );
        }

#[test]
fn movegen_blockade() {
            piece_move_generation_test(
                "rnbqk1nr/ppp1pppp/8/4b3/4P3/3p3R/PPPP1PPP/RNBQKBN1 w Qkq - 0 1",
                4,
                3,
                vec![],
            );
            piece_move_generation_test(
                "rnbqk1nr/ppp1pppp/8/4b3/4P3/3p3R/PPPP1PPP/RNBQKBN1 w Qkq - 0 1",
                3,
                1,
                vec![],
            );
            piece_move_generation_test(
                "rnbqk1nr/ppp1pppp/8/4b3/4P3/3p3R/PPPP1PPP/RNBQKBN1 w Qkq - 0 1",
                7,
                1,
                vec![],
            );
        }

#[test]
fn movegen_promotions() {
            piece_move_generation_test(
                "8/3P4/8/8/8/8/8/8 w - - 0 1",
                3,
                6,
                vec![
                    mvp("d7", "d8", Promotion::Knight),
                    mvp("d7", "d8", Promotion::Bishop),
                    mvp("d7", "d8", Promotion::Rook),
                    mvp("d7", "d8", Promotion::Queen),
                ],
            );
            piece_move_generation_test(
                "rnbqkbnr/pPpppppp/8/8/8/8/PPPP1PPP/RNBQKBNR w KQkq - 0 1",
                1,
                6,
                vec![
                    mvp("b7", "a8", Promotion::Queen),
                    mvp("b7", "a8", Promotion::Rook),
                    mvp("b7", "a8", Promotion::Bishop),
                    mvp("b7", "a8", Promotion::Knight),
                    mvp("b7", "c8", Promotion::Queen),
                    mvp("b7", "c8", Promotion::Rook),
                    mvp("b7", "c8", Promotion::Bishop),
                    mvp("b7", "c8", Promotion::Knight),
                ],
            );
        }

#[test]
fn movegen_en_passant() {
            piece_move_generation_test(
                "rnbqkbnr/pp1pp1pp/8/1Pp2p2/8/8/P1PPPPPP/RNBQKBNR w KQkq c6 0 3",
                1,
                4,
                vec![
                    mv("b5", "b6"),
                    mv("b5", "c6"),
                ],
            );
            piece_move_generation_test(
                "rnbqkbnr/p2pp1pp/1p6/1Pp2p2/8/3P4/P1P1PPPP/RNBQKBNR w KQkq c6 0 4",
                1,
                4,
                vec![
                    mv("b5", "c6"),
                ],
            );
            piece_move_generation_test(
                "rnbqkb1r/p2pp1pp/1pP2n2/8/5pP1/3P1N2/P1P1PP1P/RNBQKB1R b KQkq g3 0 6",
                5,
                3,
                vec![
                    mv("f4", "g3"),
                ],
            );
        }

#[test]
fn generation_basic_moves() {    {
            piece_move_generation_test(
                "4k3/2p5/8/8/8/3P4/2P5/7K w - - 0 1",
                2,
                1,
                vec![mv("c2", "c3"), mv("c2", "c4")],
            );
            piece_move_generation_test("4k3/2p5/8/8/8/3P4/2P5/7K w - - 0 1", 3, 2, vec![mv("d3", "d4")]);
            piece_move_generation_test(
                "4k3/2p5/8/8/8/3P4/2P5/7K b - - 0 1",
                2,
                6,
                vec![mv("c7", "c6"), mv("c7", "c5")],
            );
            }

    {
            piece_move_generation_test(
                "7k/8/3n4/8/2N5/8/8/7K w - - 0 1",
                2,
                3,
                vec![
                    mv("c4", "b6"),
                    mv("c4", "d6"),
                    mv("c4", "a5"),
                    mv("c4", "e5"),
                    mv("c4", "a3"),
                    mv("c4", "e3"),
                    mv("c4", "b2"),
                    mv("c4", "d2"),
                ],
            );
            piece_move_generation_test(
                "7k/8/1Q1n4/8/2N5/P3P3/1P1P4/7K w - - 0 1",
                2,
                3,
                vec![mv("c4", "d6"), mv("c4", "a5"), mv("c4", "e5")],
            );
            piece_move_generation_test(
                "7k/8/1Q1n4/8/2N5/P3P3/1P1P4/7K b - - 0 1",
                3,
                5,
                vec![
                    mv("d6", "c8"),
                    mv("d6", "e8"),
                    mv("d6", "b7"),
                    mv("d6", "f7"),
                    mv("d6", "b5"),
                    mv("d6", "f5"),
                    mv("d6", "c4"),
                    mv("d6", "e4"),
                ],
            );
            }

    {
            piece_move_generation_test(
                "8/p6k/8/8/8/8/1K6/8 w - - 0 1",
                1,
                1,
                vec![
                    mv("b2", "a1"),
                    mv("b2", "a2"),
                    mv("b2", "a3"),
                    mv("b2", "b1"),
                    mv("b2", "b3"),
                    mv("b2", "c1"),
                    mv("b2", "c2"),
                    mv("b2", "c3"),
                ],
            );
            piece_move_generation_test(
                "8/p6k/8/8/8/8/1K6/8 b - - 0 1",
                7,
                6,
                vec![
                    mv("h7", "g8"),
                    mv("h7", "h8"),
                    mv("h7", "g7"),
                    mv("h7", "g6"),
                    mv("h7", "h6"),
                ],
            );
            piece_move_generation_test(
                "7k/p7/8/8/8/8/8/K7 w - - 4 3",
                0,
                0,
                vec![mv("a1", "a2"), mv("a1", "b2"), mv("a1", "b1")],
            );
            }
}

#[test]
fn generation_blockade() {
            piece_move_generation_test("rnbqk1nr/ppp1pppp/8/4b3/4P3/3p3R/PPPP1PPP/RNBQKBN1 w Qkq - 0 1", 4, 3, vec![]);
            piece_move_generation_test("rnbqk1nr/ppp1pppp/8/4b3/4P3/3p3R/PPPP1PPP/RNBQKBN1 w Qkq - 0 1", 3, 1, vec![]);
            piece_move_generation_test("rnbqk1nr/ppp1pppp/8/4b3/4P3/3p3R/PPPP1PPP/RNBQKBN1 w Qkq - 0 1", 7, 1, vec![]);
        }

#[test]
fn generation_captures() {
            piece_move_generation_test(
                "rnbqkbnr/pppp1ppp/8/4p3/3P4/8/PPP1PPPP/RNBQKBNR w KQkq - 0 1",
                3,
                3,
                vec![mv("d4", "d5"), mv("d4", "e5")],
            );
            piece_move_generation_test(
                "rnbqk2r/pppppppp/8/3n1b2/4P3/8/PPPP1PPP/RNBQKBNR w KQkq - 0 1",
                4,
                3,
                vec![mv("e4", "d5"), mv("e4", "e5"), mv("e4", "f5")],
            );
            piece_move_generation_test(
                "rnbqk2r/pppppppp/8/3nRb2/4P3/8/PPPP1PPP/RNBQKBN1 w Qkq - 0 1",
                4,
                3,
                vec![mv("e4", "d5"), mv("e4", "f5")],
            );
            piece_move_generation_test("rnbqk2r/pppp1ppp/4p3/3nRP2/4P3/8/PPPP2PP/RNBQKBN1 b Qkq - 0 1", 4, 5, vec![]);
            piece_move_generation_test(
                "rnbqk2r/pppp2pp/7R/Pp5p/P6n/8/PPPP2PP/RNBQKBN1 w Qkq - 0 1",
                0,
                3,
                vec![mv("a4", "b5")],
            );
            piece_move_generation_test(
                "rnbqk2r/pppp2pp/7R/Pp5p/P6n/8/PPPP2PP/RNBQKBN1 b Qkq - 0 1",
                0,
                6,
                vec![mv("a7", "a6")],
            );
        }

#[test]
fn generation_promotions() {
            piece_move_generation_test(
                "8/3P4/8/8/8/8/8/k6K w - - 0 1",
                3,
                6,
                vec![
                    mvp("d7", "d8", Promotion::Knight),
                    mvp("d7", "d8", Promotion::Bishop),
                    mvp("d7", "d8", Promotion::Rook),
                    mvp("d7", "d8", Promotion::Queen),
                ],
            );
            piece_move_generation_test(
                "rnbqkbnr/pPpppppp/8/8/8/8/PPPP1PPP/RNBQKBNR w KQkq - 0 1",
                1,
                6,
                vec![
                    mvp("b7", "a8", Promotion::Queen),
                    mvp("b7", "a8", Promotion::Rook),
                    mvp("b7", "a8", Promotion::Bishop),
                    mvp("b7", "a8", Promotion::Knight),
                    mvp("b7", "c8", Promotion::Queen),
                    mvp("b7", "c8", Promotion::Rook),
                    mvp("b7", "c8", Promotion::Bishop),
                    mvp("b7", "c8", Promotion::Knight),
                ],
            );
        }

#[test]
fn generation_en_passant() {
            piece_move_generation_test(
                "rnbqkbnr/pp1pp1pp/8/1Pp2p2/8/8/P1PPPPPP/RNBQKBNR w KQkq c6 0 3",
                1,
                4,
                vec![mv("b5", "b6"), mv("b5", "c6")],
            );
            piece_move_generation_test(
                "rnbqkbnr/p2pp1pp/1p6/1Pp2p2/8/3P4/P1P1PPPP/RNBQKBNR w KQkq c6 0 4",
                1,
                4,
                vec![mv("b5", "c6")],
            );
            piece_move_generation_test(
                "rnbqkb1r/p2pp1pp/1pP2n2/8/5pP1/3P1N2/P1P1PP1P/RNBQKB1R b KQkq g3 0 6",
                5,
                3,
                vec![mv("f4", "g3")],
            );
            piece_move_generation_test(
                "rnbqkbnr/1ppp1ppp/8/3PpP2/p7/8/PPP1P1PP/RNBQKBNR w KQkq e6 0 5",
                3,
                4,
                vec![mv("d5", "d6"), mv("d5", "e6")],
            );
            piece_move_generation_test(
                "rnbqkbnr/1ppp1ppp/8/3PpP2/p7/8/PPP1P1PP/RNBQKBNR w KQkq e6 0 5",
                5,
                4,
                vec![mv("f5", "e6"), mv("f5", "f6")],
            );
            piece_move_generation_test("8/2p5/3p4/KP5r/1R2Pp1k/8/6P1/8 b - e3 0 1", 5, 3, vec![mv("f4", "f3")]);
        }

#[test]
fn generation_edge_moves() {
            piece_move_generation_test(
                "n6k/8/8/8/4P3/P2P4/1P6/7K b - - 2 4",
                0,
                7,
                vec![mv("a8", "c7"), mv("a8", "b6")],
            );
            piece_move_generation_test(
                "7k/1n6/8/8/4P3/P2P4/1P6/7K b - - 10 8",
                1,
                6,
                vec![
                    mv("b7", "d8"),
                    mv("b7", "d6"),
                    mv("b7", "c5"),
                    mv("b7", "a5"),
                ],
            );
            piece_move_generation_test(
                "rnbqkbnr/1ppppppp/p7/8/8/7N/PPPPPPPP/RNBQKB1R w KQkq - 0 2",
                7,
                2,
                vec![mv("h3", "g5"), mv("h3", "f4"), mv("h3", "g1")],
            );
        }

#[test]
fn generation_castling() {
            piece_move_generation_test(
                "rn2kb1r/pppppppp/8/8/8/8/PPPPPPPP/R3K2R w KQkq - 0 1",
                4,
                0,
                vec![
                    mv("e1", "d1"),
                    mv("e1", "f1"),
                    mv("e1", "g1"),
                    mv("e1", "c1"),
                ],
            );
            piece_move_generation_test(
                "rn2kb1r/pppppppp/8/8/8/8/PPPPPPPP/R3K2R w Qkq - 0 1",
                4,
                0,
                vec![mv("e1", "d1"), mv("e1", "f1"), mv("e1", "c1")],
            );
            piece_move_generation_test(
                "rn2kb1r/pppppppp/8/8/8/8/PPPPPPPP/R3K2R w Kkq - 0 1",
                4,
                0,
                vec![mv("e1", "d1"), mv("e1", "f1"), mv("e1", "g1")],
            );
            piece_move_generation_test(
                "rn2kb1r/pppppppp/8/8/8/8/PPPPPPPP/R3K2R w q - 0 1",
                4,
                0,
                vec![mv("e1", "d1"), mv("e1", "f1")],
            );
            piece_move_generation_test(
                "rn2kb1r/pppppppp/8/8/8/8/PPPPPPPP/R3K2R b kq - 0 1",
                4,
                7,
                vec![mv("e8", "d8")],
            );
            piece_move_generation_test(
                "r3k2r/p1ppqpb1/Bn2pnp1/3PN3/1p2P3/2N2Q1p/PPPB1PPP/R3K2R b KQkq - 0 1",
                4,
                7,
                vec![mv("e8", "d8"), mv("e8", "f8"), mv("e8", "g8")],
            );
            piece_move_generation_test(
                "r3k2r/p1ppqpb1/1n2pnp1/3PN3/1p2P3/2N2Q1P/PPPBbP1P/R3K2R w KQkq - 0 2",
                4,
                0,
                vec![mv("e1", "e2")],
            );
            piece_move_generation_test(
                "r3k2r/p1ppqpb1/1n2pnp1/3PN3/1p2P3/2N2Q1p/PPPB1PPP/R2BKb1R w KQkq - 2 2",
                4,
                0,
                vec![mv("e1", "f1")],
            );
            piece_move_generation_test(
                "r1B1k2r/p1ppqpb1/1n2pnp1/3PN3/4P3/2p2Q1p/PPPB1PPP/R3K2R b KQkq - 1 2",
                4,
                7,
                vec![mv("e8", "d8"), mv("e8", "f8"), mv("e8", "g8")],
            );
        }

#[test]
fn generation_check_evasion() {
            piece_move_generation_test(
                "rn2k1nr/ppp3pp/8/2P2pK1/P6P/4b1p1/4P3/1N3q2 w kq - 3 21",
                6,
                4,
                vec![mv("g5", "h5")],
            );
        }

#[test]
fn generation_from_position() {
        let mut board = Board::from_starting_position();

        board.make_move(Move::from_uci("c2c3"));
        board.make_move(Move::from_uci("d7d6"));
        board.make_move(Move::from_uci("d1a4"));

        move_generation_comparison(
            generate_all(&board),
            vec![
                mv("b7", "b5"),
                mv("b8", "c6"),
                mv("b8", "d7"),
                mv("c7", "c6"),
                mv("c8", "d7"),
                mv("d8", "d7"),
            ],
        );
    }
