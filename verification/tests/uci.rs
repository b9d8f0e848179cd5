use kopyto::board::FenProducer;
use kopyto::moves_generation::generate_all;
use kopyto::search::options::Options;
use kopyto::uci::report::{nodes_per_second, report_score, ScoreReport};
use kopyto::uci::{read_command, Command, GoOutcome, OptionSet, PositionError, RequestError, UCI};
use kopyto::types::Side;

#[test]
fn uci_reads_commands() {
    assert!(matches!(read_command("quit\n"), Command::Quit));
    assert!(matches!(read_command("  isready  "), Command::IsReady));
    assert!(matches!(read_command("ucinewgame"), Command::NewGame));
    assert!(matches!(read_command("currentfen"), Command::CurrentFen));
    assert!(matches!(read_command("hello"), Command::Unknown));
    match read_command("position startpos moves e2e4\n") {
        Command::Position(Some(text)) => assert_eq!(text, "startpos moves e2e4"),
        _ => panic!("not a position request"),
    }
    assert!(matches!(read_command("position"), Command::Position(None)));
    match read_command("go  depth 3 ") {
        Command::Go(text) => assert_eq!(text, "depth 3"),
        _ => panic!("not a go request"),
    }
    match read_command("setoption name Hash value 32") {
        Command::SetOption(text) => assert_eq!(text, "name Hash value 32"),
        _ => panic!("not a setoption request"),
    }
}

#[test]
fn uci_position_startpos_moves() {
    let mut engine = UCI::new();
    assert_eq!(engine.position(Some("startpos moves e2e4 e7e5 g1f3")), Ok(()));
    assert_eq!(
        engine.board.export_fen(),
        "rnbqkbnr/pppp1ppp/8/4p3/4P3/5N2/PPPP1PPP/RNBQKB1R b KQkq - 1 2"
    );
    // The same game one move on: only the new move is played.
    assert_eq!(engine.position(Some("startpos moves e2e4 e7e5 g1f3 b8c6")), Ok(()));
    assert_eq!(
        engine.board.export_fen(),
        "r1bqkbnr/pppp1ppp/2n5/4p3/4P3/5N2/PPPP1PPP/RNBQKB1R w KQkq - 2 3"
    );
    assert_eq!(engine.position(Some("startpos")), Ok(()));
    assert_eq!(
        engine.board.export_fen(),
        "rnbqkbnr/pppppppp/8/8/8/8/PPPPPPPP/RNBQKBNR w KQkq - 0 1"
    );
}

#[test]
fn uci_position_fen_moves() {
    let mut engine = UCI::new();
    let request = "fen r3k2r/8/8/8/8/8/8/R3K2R w KQkq - 0 1 moves e1g1 e8c8";
    assert_eq!(engine.position(Some(request)), Ok(()));
    assert_eq!(engine.board.export_fen(), "2kr3r/8/8/8/8/8/8/R4RK1 w - - 2 2");
}

#[test]
fn uci_position_refusals() {
    let mut engine = UCI::new();
    assert_eq!(engine.position(None), Err(PositionError::Invalid));
    assert_eq!(engine.position(Some("somewhere")), Err(PositionError::UnknownFormat));
    assert_eq!(engine.position(Some("startpos moves e2e4 e2e4")), Err(PositionError::Move(1)));
    assert_eq!(
        engine.board.export_fen(),
        "rnbqkbnr/pppppppp/8/8/4P3/8/PPPP1PPP/RNBQKBNR b KQkq - 0 1"
    );
    assert_eq!(engine.position(Some("startpos moves x9")), Err(PositionError::Move(0)));
}

#[test]
fn uci_new_game_clears_board() {
    let mut engine = UCI::new();
    engine.ucinewgame();
    assert_eq!(engine.board.export_fen(), "8/8/8/8/8/8/8/8 w KQkq - 0 1");
}

#[test]
fn uci_setoption() {
    let mut engine = UCI::new();
    assert!(matches!(engine.setoption("name Book value true"), Ok(OptionSet::Book(true))));
    assert!(engine.book);
    assert!(matches!(engine.setoption("name Book value false"), Ok(OptionSet::Book(false))));
    assert!(!engine.book);
    assert!(matches!(engine.setoption("name Hash value 2"), Ok(OptionSet::Hash(2))));
    assert_eq!(engine.transpositions.usage(), 0);
    match engine.setoption("name Ponder value true") {
        Ok(OptionSet::Unknown(name)) => assert_eq!(name, "Ponder"),
        _ => panic!("an unknown option is ignored"),
    }
    assert!(matches!(engine.setoption("name Book value maybe"), Err(RequestError::BadValue)));
    assert!(matches!(engine.setoption("name Hash value 0"), Err(RequestError::BadValue)));
    assert!(matches!(engine.setoption("name Hash value"), Err(RequestError::Missing)));
}

#[test]
fn uci_go_options() {
    let engine = UCI::new();
    let mut options = Options::new();
    let request = "wtime 60000 btime 50000 winc 1000 binc 2000 movetime 500 depth 7";
    assert_eq!(engine.parse_go_options(&mut options, request), Ok(()));
    assert_eq!(options.white_time, 60000);
    assert_eq!(options.black_time, 50000);
    assert_eq!(options.white_increment, 1000);
    assert_eq!(options.black_increment, 2000);
    assert_eq!(options.target_time, Some(500));
    assert_eq!(options.depth, Some(7));
    assert_eq!(engine.parse_go_options(&mut options, "infinite"), Ok(()));
    assert_eq!(options.depth, None);
    let mut options = Options::new();
    assert_eq!(engine.parse_go_options(&mut options, "wtime"), Err(RequestError::Missing));
    let mut options = Options::new();
    assert_eq!(engine.parse_go_options(&mut options, "depth x"), Err(RequestError::Unreadable));
}

#[test]
fn uci_go_perft() {
    let mut engine = UCI::new();
    match engine.go("perft 2") {
        Ok(GoOutcome::Perft { depth, divide, nodes }) => {
            assert_eq!(depth, 2);
            assert_eq!(divide.len(), 20);
            assert_eq!(nodes, 400);
            assert!(divide.iter().all(|(_, count)| *count == 20));
        }
        _ => panic!("a perft request counts"),
    }
    match engine.go("perft 0") {
        Ok(GoOutcome::Perft { nodes, divide, .. }) => {
            assert_eq!(nodes, 1);
            assert!(divide.is_empty());
        }
        _ => panic!("a perft request counts"),
    }
    assert!(matches!(engine.go("perft"), Err(RequestError::Missing)));
    assert!(matches!(engine.go("perft two"), Err(RequestError::BadValue)));
    assert_eq!(
        engine.board.export_fen(),
        "rnbqkbnr/pppppppp/8/8/8/8/PPPPPPPP/RNBQKBNR w KQkq - 0 1"
    );
}

#[test]
fn uci_go_search() {
    let mut engine = UCI::new();
    assert_eq!(engine.position(Some("fen 7k/8/8/8/8/8/8/R6K w - - 0 1")), Ok(()));
    match engine.go("depth 3") {
        Ok(GoOutcome::BestMove { best, infos, .. }) => {
            assert!(!infos.is_empty());
            assert!(generate_all(&engine.board).contains(&best));
        }
        _ => panic!("a search finds a move"),
    }
    assert_eq!(engine.board.export_fen(), "7k/8/8/8/8/8/8/R6K w - - 0 1");
    assert!(matches!(engine.go("movetime -2147483600"), Err(RequestError::BadValue)));
    // A move time below the margin leaves the time unlimited; the depth
    // still ends the search.
    assert!(matches!(engine.go("movetime 50 depth 2"), Ok(GoOutcome::BestMove { .. })));
    engine.ucinewgame();
    assert!(matches!(engine.go("depth 1"), Err(RequestError::Unplayable)));
}

#[test]
fn uci_reports_scores() {
    assert_eq!(report_score(9999, Side::White), ScoreReport::Mate(1));
    assert_eq!(report_score(9997, Side::Black), ScoreReport::Mate(2));
    assert_eq!(report_score(-9998, Side::White), ScoreReport::Mate(-1));
    assert_eq!(report_score(150, Side::White), ScoreReport::Centipawns(150));
    assert_eq!(report_score(150, Side::Black), ScoreReport::Centipawns(-150));
    assert_eq!(nodes_per_second(5000, 0), 5000000);
    assert_eq!(nodes_per_second(5000, 2000), 2500);
}

#[test]
fn uci_sets_named_options() {
    let mut engine = UCI::new();
    assert!(matches!(
        engine.set_named_option(String::from("Hash"), String::from("+3")),
        Ok(OptionSet::Hash(3))
    ));
    assert!(matches!(
        engine.set_named_option(String::from("Hash"), String::from("-3")),
        Err(RequestError::BadValue)
    ));
    assert!(matches!(
        engine.set_named_option(String::from("Book"), String::from("TRUE")),
        Err(RequestError::BadValue)
    ));
    assert!(matches!(
        engine.set_named_option(String::from("Threads"), String::from("4")),
        Ok(OptionSet::Unknown(_))
    ));
}

#[test]
fn uci_positions_share_their_keys() {
    let mut engine = UCI::new();
    assert_eq!(engine.position(Some("startpos moves e2e4")), Ok(()));
    let played = engine.board.hash;
    assert_eq!(
        engine.position(Some("fen rnbqkbnr/pppppppp/8/8/4P3/8/PPPP1PPP/RNBQKBNR b KQkq - 0 1")),
        Ok(())
    );
    assert_eq!(engine.board.hash, played);
    engine.ucinewgame();
    assert_eq!(engine.position(Some("startpos")), Ok(()));
    let start = engine.board.hash;
    assert_eq!(
        engine.position(Some("fen rnbqkbnr/pppppppp/8/8/8/8/PPPPPPPP/RNBQKBNR w KQkq - 0 1")),
        Ok(())
    );
    assert_eq!(engine.board.hash, start);
}
