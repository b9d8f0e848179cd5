use vstd::prelude::*;
use crate::search::book::Book;
use crate::board::Board;
use crate::board::board::starting_piece;
use crate::board::fen::FenConsumer;
use crate::board::board::History;
use crate::transpositions::transpositions::Transpositions;
use crate::types::{Move, Side};
use crate::types::moves::is_uci_text;
use crate::uci::text::{
    find, find_from, find_text, has_prefix, lemma_trim_shorter, starts_with, text_of, trim, trim_range,
};
use crate::util::str_chars;

verus! {

/// A chess engine speaking the Universal Chess Interface: the position it
/// is given, the last `startpos` request it read, whether it consults its
/// opening book, and its transposition table.
pub struct UCI {
    pub board: Board,
    pub last_position: String,
    pub book: bool,
    pub transpositions: Transpositions,
    /// The opening book, kept once a search has built it.
    pub openings: Option<Book>,
}

/// Why a `position` request was refused.
#[derive(Clone, Copy, PartialEq, Eq, Structural, Debug)]
pub enum PositionError {
    /// The request has no position after the keyword.
    Invalid,
    /// The position is neither `startpos` nor `fen`.
    UnknownFormat,
    /// The move text at this place of the list is not a move that the
    /// position reached accepts; the moves before it were made.
    Move(usize),
}

/// `b` is the standard starting position.
pub open spec fn is_starting(b: Board) -> bool {
    &&& b.wf()
    &&& forall|s: int, i: int|
        0 <= s < 2 && 0 <= i < 64 ==> #[trigger] b.pieces[s][i] == starting_piece(s, i)
    &&& b.castle_kingside == [true, true]
    &&& b.castle_queenside == [true, true]
    &&& b.current_color == Side::White
    &&& b.history@ == Seq::<History>::empty()
    &&& b.half_moves_clock == 0
    &&& b.full_moves_count == 1
    &&& b.en_passant.bitboard == 0
}

/// `b` is an empty board with white to move and every castling right.
pub open spec fn is_cleared(b: Board) -> bool {
    &&& b.wf()
    &&& forall|s: int, i: int| 0 <= s < 2 && 0 <= i < 64 ==> #[trigger] b.pieces[s][i].is_none()
    &&& b.castle_kingside == [true, true]
    &&& b.castle_queenside == [true, true]
    &&& b.current_color == Side::White
    &&& b.history@ == Seq::<History>::empty()
    &&& b.half_moves_clock == 0
    &&& b.full_moves_count == 1
}

/// The word that may open a move list.
pub open spec fn moves_word() -> Seq<char> {
    seq!['m', 'o', 'v', 'e', 's', ' ']
}

/// Where the first move text of `s` ends: at its first space, or at its end.
pub open spec fn first_space(s: Seq<char>) -> nat {
    match find(s, seq![' ']) {
        Some(k) => k,
        None => s.len(),
    }
}

/// A place where `w` is found holds `w`.
pub proof fn lemma_found(s: Seq<char>, w: Seq<char>, i: nat)
    requires
        find_from(s, w, i) is Some,
    ensures
        i <= find_from(s, w, i)->0,
        find_from(s, w, i)->0 + w.len() <= s.len(),
        s.subrange(find_from(s, w, i)->0 as int, (find_from(s, w, i)->0 + w.len()) as int) == w,
    decreases s.len() - i,
{
    if i + w.len() > s.len() {
    } else if s.subrange(i as int, (i + w.len()) as int) == w {
    } else if i >= s.len() {
    } else {
        lemma_found(s, w, i + 1);
    }
}


/// The move texts of a move list, in order: white space around the list
/// is dropped, and so is the word `moves` that may open it; each text
/// runs to the next space.
pub open spec fn move_texts(s: Seq<char>) -> Seq<Seq<char>>
    decreases s.len(),
{
    let t = trim(s);
    if t.len() == 0 {
        Seq::empty()
    } else if s[0] == ' ' {
        proof {
            lemma_trim_shorter(s);
        }
        move_texts(t)
    } else if starts_with(t, moves_word()) {
        proof {
            lemma_trim_shorter(s);
        }
        move_texts(t.skip(6))
    } else {
        proof {
            lemma_trim_shorter(s);
            if find(s, seq![' ']) is Some {
                lemma_found(s, seq![' '], 0);
                if first_space(s) == 0 {
                    assert(s.subrange(0, 1)[0] == s[0]);
                }
            }
            lemma_trim_shorter(s.skip(first_space(s) as int));
        }
        seq![s.take(first_space(s) as int)].add(
            move_texts(trim(s.skip(first_space(s) as int))),
        )
    }
}

/// Making the moves written in `texts`, one after the other, leads from
/// `b0` to `b1`: each text is a move the board reached accepts.
pub open spec fn plays(b0: Board, texts: Seq<Seq<char>>, b1: Board) -> bool
    decreases texts.len(),
{
    if texts.len() == 0 {
        b1 == b0
    } else {
        &&& Move::valid_uci(texts[0])
        &&& b0.can_make(Move::parsed_uci(texts[0]))
        &&& exists|mid: Board|
            #![trigger b0.makes(Move::parsed_uci(texts[0]), mid)]
            b0.makes(Move::parsed_uci(texts[0]), mid) && plays(mid, texts.drop_first(), b1)
    }
}

/// What playing the move list `s` from `b0` gave: all of it, or the moves
/// before the one that was refused.
pub open spec fn played(b0: Board, s: Seq<char>, b1: Board, r: Result<(), PositionError>) -> bool {
    match r {
        Ok(()) => plays(b0, move_texts(s), b1),
        Err(PositionError::Move(k)) => k < move_texts(s).len() && plays(
            b0,
            move_texts(s).take(k as int),
            b1,
        ),
        Err(_) => false,
    }
}

/// The keyword of the starting position.
pub open spec fn startpos_word() -> Seq<char> {
    seq!['s', 't', 'a', 'r', 't', 'p', 'o', 's']
}

/// The starting position followed by a move list.
pub open spec fn startpos_moves_word() -> Seq<char> {
    startpos_word() + seq![' '] + moves_word()
}

/// The keyword of a position in Forsyth-Edwards Notation.
pub open spec fn fen_word() -> Seq<char> {
    seq!['f', 'e', 'n', ' ']
}

/// What separates a position in Forsyth-Edwards Notation from its moves.
pub open spec fn moves_marker() -> Seq<char> {
    seq![' '] + moves_word()
}

/// The position text of a `fen` request: what follows `fen ` up to the
/// word `moves`, if it comes.
pub open spec fn fen_field(c: Seq<char>) -> Seq<char> {
    match find(c, moves_marker()) {
        Some(k) => c.subrange(4, if k < 4 {
            4
        } else {
            k as int
        }),
        None => c.skip(4),
    }
}

/// `b` holds the position of every board whose FEN text is `text`.
pub open spec fn fen_gives(text: Seq<char>, b: Board) -> bool {
    forall|x: Board| x.fen_readable() && #[trigger] x.fen_text() == text ==> b.reads_back(x)
}

/// The move list of a `fen` request: what follows the word `moves`.
pub open spec fn fen_moves(c: Seq<char>) -> Seq<char> {
    c.skip((find(c, moves_marker())->0 + 7) as int)
}

/// What a `position` request with the text `c` does to the engine `u0`,
/// giving `u1` and `r`. From `startpos`, the moves after the text of the
/// last such request are played on the current position when the request
/// repeats that text, and else on a fresh starting position; the text is
/// kept when all moves could be played. From `fen`, the moves after the
/// word `moves` are played on the position read.
pub open spec fn position_done(u0: UCI, c: Seq<char>, u1: UCI, r: Result<(), PositionError>) -> bool {
    if starts_with(c, startpos_word()) {
        &&& if u0.last_position@.len() > 0 && starts_with(c, u0.last_position@) {
            played(u0.board, c.skip(u0.last_position@.len() as int), u1.board, r)
        } else if starts_with(c, startpos_moves_word()) {
            exists|b: Board| is_starting(b) && #[trigger] played(b, c.skip(15), u1.board, r)
        } else {
            is_starting(u1.board) && r is Ok
        }
        &&& u1.last_position@ == (if r is Ok {
            c
        } else {
            Seq::<char>::empty()
        })
    } else if starts_with(c, fen_word()) {
        &&& u1.last_position == u0.last_position
        &&& if find(c, moves_marker()) is Some {
            exists|b: Board|
                b.wf() && fen_gives(fen_field(c), b) && #[trigger] played(
                    b,
                    fen_moves(c),
                    u1.board,
                    r,
                )
        } else {
            r is Ok && fen_gives(fen_field(c), u1.board)
        }
    } else {
        &&& r == Err::<(), PositionError>(PositionError::UnknownFormat)
        &&& u1.board == u0.board
        &&& u1.last_position == u0.last_position
    }
}

impl UCI {
    /// The engine is in a working state.
    pub open spec fn wf(self) -> bool {
        &&& self.board.wf()
        &&& self.transpositions.wf()
    }

    /// Makes the move written in `s[lo..hi]` if the position accepts it
    /// (see `Board::accepts`); else leaves the position as it is.
    fn play_text(&mut self, s: &Vec<char>, lo: usize, hi: usize) -> (r: bool)
        requires
            old(self).board.wf(),
            lo <= hi <= s@.len(),
        ensures
            final(self).board.wf(),
            final(self).last_position == old(self).last_position,
            final(self).book == old(self).book,
            final(self).transpositions == old(self).transpositions,
            final(self).board.zobrist == old(self).board.zobrist,
            r ==> {
                let t = s@.subrange(lo as int, hi as int);
                &&& Move::valid_uci(t)
                &&& old(self).board.can_make(Move::parsed_uci(t))
                &&& old(self).board.makes(Move::parsed_uci(t), final(self).board)
            },
            !r ==> final(self).board == old(self).board,
    {
        if !is_uci_text(s, lo, hi) {
            return false;
        }
        if self.board.half_moves_clock == u32::MAX || self.board.full_moves_count == u32::MAX {
            return false;
        }
        let text = text_of(s, lo, hi);
        let m = Move::from_uci(text.as_str());
        if !self.board.accepts_move(m) {
            return false;
        }
        self.board.make_move(m);
        true
    }

    /// Makes the moves of the list `s[lo..hi]` in order, up to the first
    /// that the position reached does not accept.
    fn play_moves(&mut self, s: &Vec<char>, lo: usize, hi: usize) -> (r: Result<(), PositionError>)
        requires
            old(self).board.wf(),
            lo <= hi <= s@.len(),
        ensures
            final(self).board.wf(),
            final(self).last_position == old(self).last_position,
            final(self).book == old(self).book,
            final(self).transpositions == old(self).transpositions,
            played(old(self).board, s@.subrange(lo as int, hi as int), final(self).board, r),
            r matches Err(PositionError::Move(k)) ==> k < hi - lo,
            final(self).board.zobrist == old(self).board.zobrist,
        decreases hi - lo,
    {
        let ghost sub = s@.subrange(lo as int, hi as int);
        let ghost b0 = self.board;
        let (a, b) = trim_range(s, lo, hi);
        if a == b {
            assert(move_texts(sub) =~= Seq::<Seq<char>>::empty());
            return Ok(());
        }
        assert(sub[0] == s@[lo as int]);
        proof {
            lemma_trim_shorter(sub);
        }
        if s[lo] == ' ' {
            return self.play_moves(s, a, b);
        }
        let word = vec!['m', 'o', 'v', 'e', 's', ' '];
        assert(word@ =~= moves_word());
        if has_prefix(s, a, b, &word) {
            assert(s@.subrange(a as int, b as int).skip(6) =~= s@.subrange(a + 6, b as int));
            return self.play_moves(s, a + 6, b);
        }
        let space = vec![' '];
        assert(space@ =~= seq![' ']);
        let end = match find_text(s, lo, hi, &space) {
            Some(k) => lo + k,
            None => hi,
        };
        proof {
            if find(sub, seq![' ']) is Some {
                lemma_found(sub, seq![' '], 0);
                if end == lo {
                    assert(sub.subrange(0, 1)[0] == sub[0]);
                }
            }
            assert(sub.take(first_space(sub) as int) =~= s@.subrange(lo as int, end as int));
            assert(sub.skip(first_space(sub) as int) =~= s@.subrange(end as int, hi as int));
        }
        if !self.play_text(s, lo, end) {
            assert(move_texts(sub).take(0) =~= Seq::<Seq<char>>::empty());
            return Err(PositionError::Move(0));
        }
        let ghost b1 = self.board;
        let (c, d) = trim_range(s, end, hi);
        let r = self.play_moves(s, c, d);
        let ghost texts = move_texts(sub);
        let ghost rest = move_texts(s@.subrange(c as int, d as int));
        assert(texts =~= seq![s@.subrange(lo as int, end as int)].add(rest));
        assert(texts[0] == s@.subrange(lo as int, end as int));
        match r {
            Ok(()) => {
                assert(texts.drop_first() =~= rest);
                assert(b0.makes(Move::parsed_uci(texts[0]), b1));
                Ok(())
            },
            Err(PositionError::Move(k)) => {
                let ghost taken = texts.take(k + 1);
                assert(taken[0] == texts[0]);
                assert(taken.drop_first() =~= rest.take(k as int));
                assert(b0.makes(Move::parsed_uci(taken[0]), b1));
                Err(PositionError::Move(k + 1))
            },
            Err(e) => Err(e),
        }
    }

    /// An engine at the starting position, with no request read, no book
    /// and an empty table of 64 megabytes.
    pub fn new() -> (r: Self)
        ensures
            r.wf(),
            is_starting(r.board),
            r.last_position@ == Seq::<char>::empty(),
            !r.book,
            r.transpositions.is_empty_table(),
    {
        Self {
            board: Board::from_starting_position(),
            last_position: String::new(),
            book: false,
            transpositions: Transpositions::new(64),
            openings: None,
        }
    }

    /// Starts a new game on an empty board.
    pub fn ucinewgame(&mut self)
        requires
            old(self).wf(),
        ensures
            final(self).wf(),
            is_cleared(final(self).board),
            final(self).last_position == old(self).last_position,
            final(self).book == old(self).book,
            final(self).transpositions == old(self).transpositions,
            final(self).board.zobrist == old(self).board.zobrist,
    {
        let keys = self.board.zobrist;
        self.board = Board::new();
        self.board.set_zobrist(keys);
    }

    /// Sets up the position of a `position` request: `startpos` or
    /// `fen` and a position, then optionally `moves` and a list of moves.
    pub fn position(&mut self, cmd: Option<&str>) -> (r: Result<(), PositionError>)
        requires
            old(self).wf(),
        ensures
            final(self).wf(),
            final(self).book == old(self).book,
            final(self).transpositions == old(self).transpositions,
            cmd is None ==> r == Err::<(), PositionError>(PositionError::Invalid),
            cmd is None ==> final(self).board == old(self).board,
            cmd is None ==> final(self).last_position == old(self).last_position,
            cmd matches Some(c) ==> position_done(*old(self), c@, *final(self), r),
            final(self).board.zobrist == old(self).board.zobrist,
    {
        let keys = self.board.zobrist;
        match cmd {
            None => Err(PositionError::Invalid),
            Some(c) => {
                let s = str_chars(c);
                let n = s.len();
                assert(s@.subrange(0, n as int) =~= c@);
                let startpos = vec!['s', 't', 'a', 'r', 't', 'p', 'o', 's'];
                assert(startpos@ =~= startpos_word());
                let fen = vec!['f', 'e', 'n', ' '];
                assert(fen@ =~= fen_word());
                if has_prefix(&s, 0, n, &startpos) {
                    let last = str_chars(self.last_position.as_str());
                    let ghost u0 = *self;
                    let r = if last.len() > 0 && has_prefix(&s, 0, n, &last) {
                        assert(s@.subrange(last@.len() as int, n as int) =~= c@.skip(
                            last@.len() as int,
                        ));
                        self.play_moves(&s, last.len(), n)
                    } else {
                        self.board = Board::from_starting_position();
                        self.board.set_zobrist(keys);
                        let ghost b = self.board;
                        let with_moves = vec![
                            's', 't', 'a', 'r', 't', 'p', 'o', 's', ' ', 'm', 'o', 'v', 'e', 's', ' ',
                        ];
                        assert(with_moves@ =~= startpos_moves_word());
                        if has_prefix(&s, 0, n, &with_moves) {
                            assert(s@.subrange(15, n as int) =~= c@.skip(15));
                            let r = self.play_moves(&s, 15, n);
                            assert(played(b, c@.skip(15), self.board, r));
                            r
                        } else {
                            Ok(())
                        }
                    };
                    self.last_position = if r.is_ok() {
                        c.to_owned()
                    } else {
                        String::new()
                    };
                    r
                } else if has_prefix(&s, 0, n, &fen) {
                    let marker = vec![' ', 'm', 'o', 'v', 'e', 's', ' '];
                    assert(marker@ =~= moves_marker());
                    match find_text(&s, 0, n, &marker) {
                        None => {
                            let text = text_of(&s, 4, n);
                            assert(s@.subrange(4, n as int) =~= fen_field(c@));
                            self.board = Board::from_fen(text.as_str());
                            self.board.set_zobrist(keys);
                            Ok(())
                        },
                        Some(k) => {
                            let end = if k < 4 {
                                4
                            } else {
                                k
                            };
                            let text = text_of(&s, 4, end);
                            assert(s@.subrange(4, end as int) =~= fen_field(c@));
                            self.board = Board::from_fen(text.as_str());
                            self.board.set_zobrist(keys);
                            let ghost b = self.board;
                            assert(s@.subrange(k + 7, n as int) =~= fen_moves(c@));
                            let r = self.play_moves(&s, k + 7, n);
                            assert(played(b, fen_moves(c@), self.board, r));
                            r
                        },
                    }
                } else {
                    Err(PositionError::UnknownFormat)
                }
            },
        }
    }
}

} // verus!
