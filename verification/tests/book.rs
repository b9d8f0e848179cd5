use kopyto::board::Board;
use kopyto::search::book::{Book, BookGenerator};
use kopyto::search::options::Options;
use kopyto::search::search::Searcher;
use kopyto::transpositions::Transpositions;
use kopyto::types::{Move, Side};

fn names(moves: &[Move]) -> Vec<String> {
    let mut names: Vec<String> = moves.iter().map(|m| m.to_uci()).collect();
    names.sort();
    names
}

#[test]
fn book_starts_empty() {
    let book = Book::new();
    assert!(book.search(Side::White, 1, 0).is_none());
    assert!(book.search(Side::Black, 1, 0).is_none());
}

#[test]
fn book_holds_opening_moves() {
    let mut board = Board::from_starting_position();
    let book = board.prepare_book();
    let first = book.search(Side::White, 1, board.key()).expect("the start is in the book");
    assert_eq!(names(&first), vec!["d2d4", "e2e4"]);
    assert!(book.search(Side::Black, 1, board.key()).is_none());

    board.make_move(Move::from_uci("e2e4"));
    let replies = book.search(Side::Black, 1, board.key()).expect("1. e4 is answered");
    assert_eq!(names(&replies), vec!["c7c6", "e7e5"]);

    board.make_move(Move::from_uci("e7e5"));
    let second = book.search(Side::White, 2, board.key()).expect("1. e4 e5 is continued");
    assert_eq!(names(&second), vec!["g1f3"]);
    // Another move number is another entry.
    assert!(book.search(Side::White, 3, board.key()).is_none());
}

#[test]
fn book_move_is_played_first() {
    let board = Board::from_starting_position();
    let mut searcher = Searcher::new(board, Transpositions::new(1), true);
    let mut options = Options::new();
    options.depth = Some(3);
    let m = searcher.go(options);
    let name = m.to_uci();
    assert!(name == "e2e4" || name == "d2d4", "{}", name);
    assert!(searcher.infos.is_empty());
}
