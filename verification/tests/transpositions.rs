use kopyto::transpositions::{TableScore, Transpositions};
use kopyto::types::Move;

#[test]
fn new_tt_has_null_usage() {
        assert_eq!(Transpositions::new(1).usage(), 0);
    }

#[test]
fn empty_tt_returns_neither_moves_nor_scores() {
        let tt = Transpositions::new(1);
        assert_eq!(tt.get(2137, 4, 10, 20), None);
        assert_eq!(tt.get_move(1234), None);
    }

#[test]
fn storing_getting_and_replacing() {
        let mut tt = Transpositions::new(1);
        tt.set(2137, 5, TableScore::Exact(10), Move::from_uci("e2e4"));
        assert_eq!(tt.get_move(2137), Some(Move::from_uci("e2e4")));
        assert_eq!(tt.get(2137, 3, 0, 100), Some(10));
        assert_eq!(tt.get(2137, 5, 0, 100), Some(10));
        assert_eq!(tt.get(2137, 8, 0, 100), None);

        tt.set(2137, 4, TableScore::Exact(5), Move::from_uci("e2e3"));
        assert_eq!(tt.get_move(2137), Some(Move::from_uci("e2e4")));
        assert_eq!(tt.get(2137, 4, -10, 10), Some(10));

        tt.set(2137, 8, TableScore::Exact(0), Move::from_uci("d2d4"));
        assert_eq!(tt.get_move(2137), Some(Move::from_uci("d2d4")));
        assert_eq!(tt.get(2137, 4, -10, 10), Some(0));

        tt.set(2137, 10, TableScore::Unknown, Move::from_uci("a1a1"));
        assert_eq!(tt.get_move(2137), Some(Move::from_uci("d2d4")));
        assert_eq!(tt.get(2137, 4, -10, 10), Some(0));

        tt.set(1234, 10, TableScore::AtLeast(0), Move::from_uci("e2e4"));
        assert_eq!(tt.get(1234, 8, -10, 10), None);
        assert_eq!(tt.get(1234, 8, -10, -5), Some(0));

        tt.set(0, 5, TableScore::AtMost(0), Move::from_uci("e2e4"));
        assert_eq!(tt.get(0, 5, -10, 10), None);
        assert_eq!(tt.get(0, 5, 5, 10), Some(0));
    }
