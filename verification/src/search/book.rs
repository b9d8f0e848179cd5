use vstd::prelude::*;
use std::collections::HashMap;
use crate::board::Board;
use crate::board::make::{lemma_can_unmake_after_make, lemma_same_position_unmake, lemma_unmake_after_make};
use crate::moves_generation::generation::generate_all;
use crate::transpositions::zobrist::Zobrist;
use crate::types::{Move, Side};

verus! {

broadcast use vstd::std_specs::hash::group_hash_axioms;

/// The book moves of each position, by its hash.
pub type PositionMap = HashMap<u64, Vec<Move>>;

/// The positions of the book, by the move number.
pub type SideMap = HashMap<u32, PositionMap>;

/// An opening book: for each side, the moves to play by move number and
/// position hash.
pub struct Book {
    pub white: SideMap,
    pub black: SideMap,
}

/// The moves that `map` holds for `position` at move number `turn`.
pub open spec fn side_entry(map: SideMap, turn: u32, position: u64) -> Option<Seq<Move>> {
    if map@.contains_key(turn) && map@[turn]@.contains_key(position) {
        Some(map@[turn]@[position]@)
    } else {
        None
    }
}

/// `new` holds what `old` holds, each list kept at its start and extended
/// only by moves of `line`.
pub open spec fn extends(old: Option<Seq<Move>>, new: Option<Seq<Move>>, line: Seq<Move>) -> bool {
    match new {
        Some(b) => {
            let a = match old {
                Some(a) => a,
                None => Seq::<Move>::empty(),
            };
            &&& a.len() <= b.len()
            &&& b.subrange(0, a.len() as int) == a
            &&& forall|i: int| a.len() <= i < b.len() ==> line.contains(#[trigger] b[i])
        },
        None => old is None,
    }
}

/// Every entry of `old` is kept in `new`, extended only by moves of `line`.
pub open spec fn grows(old: SideMap, new: SideMap, line: Seq<Move>) -> bool {
    forall|t: u32, p: u64| #[trigger] extends(side_entry(old, t, p), side_entry(new, t, p), line)
}

/// The moves of `line` with `m` added at its end unless it holds it.
pub open spec fn with_move(list: Option<Seq<Move>>, m: Move) -> Seq<Move> {
    match list {
        Some(s) => if s.contains(m) {
            s
        } else {
            s.push(m)
        },
        None => seq![m],
    }
}

/// The place of `m` in `moves`, if it is there.
fn find_move(moves: &Vec<Move>, m: Move) -> (r: Option<usize>)
    ensures
        match r {
            Some(i) => i < moves@.len() && moves@[i as int] == m,
            None => !moves@.contains(m),
        },
{
    let mut i: usize = 0;
    while i < moves.len()
        invariant
            i <= moves@.len(),
            forall|k: int| 0 <= k < i ==> moves@[k] != m,
        decreases moves@.len() - i,
    {
        if moves[i] == m {
            return Some(i);
        }
        i = i + 1;
    }
    None
}

/// A copy of the moves.
fn copy_moves(moves: &Vec<Move>) -> (r: Vec<Move>)
    ensures
        r@ == moves@,
{
    let mut result: Vec<Move> = Vec::new();
    let mut i: usize = 0;
    while i < moves.len()
        invariant
            i <= moves@.len(),
            result@ == moves@.subrange(0, i as int),
        decreases moves@.len() - i,
    {
        result.push(moves[i]);
        i = i + 1;
    }
    assert(moves@.subrange(0, moves@.len() as int) =~= moves@);
    result
}

/// Files `m` under `position` at move number `turn`.
fn add_move(map: &mut SideMap, turn: u32, position: u64, m: Move)
    ensures
        side_entry(*final(map), turn, position) == Some(
            with_move(side_entry(*old(map), turn, position), m),
        ),
        forall|t: u32, p: u64|
            !(t == turn && p == position) ==> #[trigger] side_entry(*final(map), t, p) == side_entry(
                *old(map),
                t,
                p,
            ),
{
    let ghost before = *map;
    let mut inner = match map.remove(&turn) {
        Some(found) => found,
        None => HashMap::new(),
    };
    let ghost inner_before = inner;
    let mut list = match inner.remove(&position) {
        Some(found) => found,
        None => Vec::new(),
    };
    if find_move(&list, m).is_none() {
        list.push(m);
    }
    inner.insert(position, list);
    map.insert(turn, inner);
    assert forall|t: u32, p: u64|
        !(t == turn && p == position) implies #[trigger] side_entry(*map, t, p) == side_entry(
            before,
            t,
            p,
        ) by {
        if t == turn {
            assert(inner@[p] == inner_before@[p]);
        }
    }
}

/// The move `line[j]` was made on `boards[j]`, a board the generator
/// reads, giving `boards[j + 1]`.
pub open spec fn step_made(boards: Seq<Board>, line: Seq<Move>, j: int) -> bool {
    &&& boards[j].playable()
    &&& boards[j].can_make(line[j])
    &&& boards[j].mover(line[j]) == boards[j].current_color
    &&& boards[j].makes(line[j], boards[j + 1])
}

/// The map holds move `m` for the position of `b`, under its move number
/// and its hash.
pub open spec fn files_move(map: SideMap, b: Board, m: Move) -> bool {
    side_entry(map, b.full_moves_count, b.hash) matches Some(l) && l.contains(m)
}

/// Adding a move to an entry keeps the moves it held.
proof fn lemma_with_move_keeps(list: Option<Seq<Move>>, m: Move, kept: Move)
    requires
        list matches Some(l) && l.contains(kept),
    ensures
        with_move(list, m).contains(kept),
{
    let l = list->0;
    if !l.contains(m) {
        let i = choose|i: int| 0 <= i < l.len() && l[i] == kept;
        assert(l.push(m)[i] == kept);
    }
}

/// A map grows from itself.
proof fn lemma_grows_itself(map: SideMap, line: Seq<Move>)
    ensures
        grows(map, map, line),
{
    assert forall|t: u32, p: u64| #[trigger] extends(side_entry(map, t, p), side_entry(map, t, p), line) by {
        if side_entry(map, t, p) is Some {
            let b = side_entry(map, t, p)->0;
            assert(b.subrange(0, b.len() as int) =~= b);
        }
    }
}

/// Adding a move of the line to an entry keeps it grown from the start.
proof fn lemma_extends_with(first: Option<Seq<Move>>, before: Option<Seq<Move>>, m: Move, line: Seq<Move>)
    requires
        extends(first, before, line),
        line.contains(m),
    ensures
        extends(first, Some(with_move(before, m)), line),
{
    let a = match first {
        Some(a) => a,
        None => Seq::<Move>::empty(),
    };
    let c = with_move(before, m);
    match before {
        Some(b) => {
            if !b.contains(m) {
                assert(c.subrange(0, a.len() as int) =~= b.subrange(0, a.len() as int));
                assert forall|i: int| a.len() <= i < c.len() implies line.contains(#[trigger] c[i]) by {
                    if i < b.len() {
                        assert(c[i] == b[i]);
                    }
                }
            }
        },
        None => {
            assert(a.len() == 0);
            assert(c.subrange(0, 0) =~= a);
            assert forall|i: int| a.len() <= i < c.len() implies line.contains(#[trigger] c[i]) by {
                assert(c[i] == m);
            }
        },
    }
}

impl Book {
    /// The map of the lines for white, or else of those for black.
    pub open spec fn side_map(self, white: bool) -> SideMap {
        if white {
            self.white
        } else {
            self.black
        }
    }

    /// The moves the book holds for `side` in `position` at move number
    /// `turn`.
    pub open spec fn entry(self, side: Side, turn: u32, position: u64) -> Option<Seq<Move>> {
        side_entry(if side == Side::White { self.white } else { self.black }, turn, position)
    }

    /// An empty book.
    pub fn new() -> (r: Self)
        ensures
            forall|side: Side, t: u32, p: u64| #[trigger] r.entry(side, t, p) is None,
    {
        Self { white: HashMap::new(), black: HashMap::new() }
    }

    /// The moves the book holds for `side` in `position` at move number
    /// `turn`.
    pub fn search(&self, side: Side, turn: u32, position: u64) -> (r: Option<Vec<Move>>)
        ensures
            match r {
                Some(v) => self.entry(side, turn, position) == Some(v@),
                None => self.entry(side, turn, position) is None,
            },
    {
        match side {
            Side::White => Self::search_side(&self.white, turn, position),
            Side::Black => Self::search_side(&self.black, turn, position),
        }
    }

    fn search_side(map: &SideMap, turn: u32, position: u64) -> (r: Option<Vec<Move>>)
        ensures
            match r {
                Some(v) => side_entry(*map, turn, position) == Some(v@),
                None => side_entry(*map, turn, position) is None,
            },
    {
        match map.get(&turn) {
            None => None,
            Some(position_map) => match position_map.get(&position) {
                None => None,
                Some(moves) => Some(copy_moves(moves)),
            },
        }
    }

    /// Files the moves of `line`, played from `board`, for the side that
    /// moves first when `white` and else for the other: each of its moves
    /// under the position it is played in. The line is played only as far
    /// as its moves are legal, and taken back. A line of the wrong length
    /// for the side is refused.
    fn add_line(&mut self, board: &mut Board, line: &Vec<Move>, white: bool) -> (r: bool)
        requires
            old(board).wf(),
        ensures
            final(board).same_position(*old(board)),
            white ==> grows(old(self).white, final(self).white, line@) && final(self).black == old(
                self,
            ).black,
            !white ==> grows(old(self).black, final(self).black, line@) && final(self).white == old(
                self,
            ).white,
            line@.len() % 2 != (if white {
                1int
            } else {
                0int
            }) ==> !r,
            r ==> exists|boards: Seq<Board>|
                {
                    &&& boards.len() == line@.len() + 1
                    &&& boards[0] == *old(board)
                    &&& forall|j: int| 0 <= j < line@.len() ==> #[trigger] step_made(boards, line@, j)
                    &&& forall|j: int|
                        0 <= j < line@.len() && j % 2 == (if white {
                            0int
                        } else {
                            1int
                        }) ==> #[trigger] files_move(
                            final(self).side_map(white),
                            boards[j],
                            line@[j],
                        )
                },
    {
        proof {
            lemma_grows_itself(self.white, line@);
            lemma_grows_itself(self.black, line@);
        }
        if line.len() % 2 != (if white {
            1
        } else {
            0
        }) {
            return false;
        }
        let ghost b0 = *board;
        let ghost start = *self;
        let ghost mut boards: Seq<Board> = seq![*board];
        let mut made: usize = 0;
        let mut legal = true;
        while made < line.len() && legal
            invariant
                made <= line@.len(),
                boards.len() == made + 1,
                boards[0] == b0,
                boards[made as int] == *board,
                board.wf(),
                forall|j: int| 0 <= j < made ==> #[trigger] step_made(boards, line@, j),
                white ==> grows(start.white, self.white, line@) && self.black == start.black,
                !white ==> grows(start.black, self.black, line@) && self.white == start.white,
                forall|j: int|
                    0 <= j < made && j % 2 == (if white {
                        0int
                    } else {
                        1int
                    }) ==> #[trigger] files_move(
                        self.side_map(white),
                        boards[j],
                        line@[j],
                    ),
                legal || made < line@.len(),
            ensures
                made <= line@.len(),
                boards.len() == made + 1,
                boards[0] == b0,
                boards[made as int] == *board,
                board.wf(),
                forall|j: int| 0 <= j < made ==> #[trigger] step_made(boards, line@, j),
                white ==> grows(start.white, self.white, line@) && self.black == start.black,
                !white ==> grows(start.black, self.black, line@) && self.white == start.white,
                forall|j: int|
                    0 <= j < made && j % 2 == (if white {
                        0int
                    } else {
                        1int
                    }) ==> #[trigger] files_move(
                        self.side_map(white),
                        boards[j],
                        line@[j],
                    ),
                legal ==> made == line@.len(),
            decreases line@.len() - made + (if legal {
                1int
            } else {
                0int
            }),
        {
            let m = line[made];
            if !board.is_playable() || board.half_moves_clock == u32::MAX
                || board.full_moves_count == u32::MAX {
                legal = false;
            } else {
                let moves = generate_all(board);
                match find_move(&moves, m) {
                    None => {
                        legal = false;
                    },
                    Some(k) => {
                        assert(board.accepts(moves@[k as int]));
                        if made % 2 == (if white {
                            0
                        } else {
                            1
                        }) {
                            let key = board.key();
                            let clock = board.full_moves_count;
                            let ghost before = self.side_map(white);
                            if white {
                                add_move(&mut self.white, clock, key, m);
                            } else {
                                add_move(&mut self.black, clock, key, m);
                            }
                            proof {
                                let after = self.side_map(white);
                                let first = if white {
                                    start.white
                                } else {
                                    start.black
                                };
                                assert(line@[made as int] == m);
                                assert(line@.contains(m));
                                assert forall|t: u32, p: u64| #[trigger]
                                    extends(side_entry(first, t, p), side_entry(after, t, p), line@) by {
                                    assert(extends(side_entry(first, t, p), side_entry(before, t, p), line@));
                                    if t == clock && p == key {
                                        lemma_extends_with(side_entry(first, t, p), side_entry(before, t, p), m, line@);
                                    }
                                }
                                assert(with_move(side_entry(before, clock, key), m).contains(m)) by {
                                    match side_entry(before, clock, key) {
                                        Some(l) => {
                                            if !l.contains(m) {
                                                assert(l.push(m)[l.len() as int] == m);
                                            }
                                        },
                                        None => {
                                            assert(seq![m][0] == m);
                                        },
                                    }
                                }
                                assert(files_move(after, boards[made as int], m));
                                assert forall|j: int|
                                    0 <= j < made && j % 2 == (if white {
                                        0int
                                    } else {
                                        1int
                                    }) implies #[trigger] files_move(after, boards[j], line@[j]) by {
                                    assert(files_move(before, boards[j], line@[j]));
                                    let bj = boards[j];
                                    if bj.full_moves_count == clock && bj.hash == key {
                                        lemma_with_move_keeps(side_entry(before, clock, key), m, line@[j]);
                                    }
                                }
                            }
                        }
                        let ghost prev = *board;
                        board.make_move(m);
                        proof {
                            let old_boards = boards;
                            boards = boards.push(*board);
                            assert(boards[made as int] == prev);
                            assert forall|j: int| 0 <= j < made + 1 implies #[trigger] step_made(boards, line@, j) by {
                                if j < made {
                                    assert(step_made(old_boards, line@, j));
                                    assert(boards[j] == old_boards[j]);
                                    assert(boards[j + 1] == old_boards[j + 1]);
                                } else {
                                    assert(boards[j] == prev);
                                    assert(boards[j + 1] == *board);
                                }
                            }
                        }
                        made = made + 1;
                    },
                }
            }
        }
        let mut left = made;
        while left > 0
            invariant
                left <= made <= line@.len(),
                boards.len() == made + 1,
                boards[0] == b0,
                board.same_position(boards[left as int]),
                forall|j: int| 0 <= j < made ==> #[trigger] step_made(boards, line@, j),
            decreases left,
        {
            let ghost prev = boards[left - 1];
            let ghost next = boards[left as int];
            let ghost here = *board;
            proof {
                assert(step_made(boards, line@, left - 1));
                lemma_can_unmake_after_make(prev, line@[left - 1], next);
                lemma_same_position_unmake(next, here);
            }
            board.unmake_move();
            proof {
                assert(next.unmakes(*board));
                lemma_unmake_after_make(prev, line@[left - 1], next, *board);
            }
            left = left - 1;
        }
        legal
    }

    /// The book of the opening lines, filed under position hashes made
    /// with the keys `zobrist`: the lines for white from the starting
    /// position, then those for black. A line whose text does not read as
    /// moves is left out.
    pub fn prepare(zobrist: Zobrist) -> (r: Book) {
        let mut book = Book::new();
        let mut board = Board::from_starting_position();
        let ghost fresh = board;
        board.set_zobrist(zobrist);
        proof {
            crate::board::make::lemma_wf_keep(fresh, board);
        }
        let white = white_lines();
        let mut i: usize = 0;
        while i < white.len()
            invariant
                i <= white@.len(),
                board.wf(),
            decreases white@.len() - i,
        {
            match read_line(&white[i]) {
                Some(line) => {
                    let ghost before = board;
                    book.add_line(&mut board, &line, true);
                    proof {
                        crate::board::make::lemma_wf_keep(before, board);
                    }
                },
                None => {},
            }
            i = i + 1;
        }
        let black = black_lines();
        let mut i: usize = 0;
        while i < black.len()
            invariant
                i <= black@.len(),
                board.wf(),
            decreases black@.len() - i,
        {
            match read_line(&black[i]) {
                Some(line) => {
                    let ghost before = board;
                    book.add_line(&mut board, &line, false);
                    proof {
                        crate::board::make::lemma_wf_keep(before, board);
                    }
                },
                None => {},
            }
            i = i + 1;
        }
        book
    }
}

/// The moves of an opening line written in UCI text, if every text reads
/// as a move.
fn read_line(texts: &Vec<&str>) -> (r: Option<Vec<Move>>)
    ensures
        r matches Some(line) ==> line@.len() == texts@.len(),
{
    let mut line: Vec<Move> = Vec::new();
    let mut i: usize = 0;
    while i < texts.len()
        invariant
            i <= texts@.len(),
            line@.len() == i,
        decreases texts@.len() - i,
    {
        match Move::try_from_uci(texts[i]) {
            Some(m) => line.push(m),
            None => return None,
        }
        i = i + 1;
    }
    Some(line)
}

/// What produces an opening book.
pub trait BookGenerator {
    fn prepare_book(&mut self) -> Book;
}

impl BookGenerator for Board {
    /// The book of the opening lines, with the hash keys of this board.
    fn prepare_book(&mut self) -> Book {
        Book::prepare(self.zobrist)
    }
}

/// The opening lines played for white, from the starting position.
fn white_lines() -> Vec<Vec<&'static str>> {
    vec![
        vec!["e2e4", "e7e5", "g1f3", "g8f6", "f3e5", "f6e4", "d1e2"],
        vec!["e2e4", "e7e5", "g1f3", "g8f6", "f3e5", "d7d6", "e5f3"],
        vec!["e2e4", "e7e5", "g1f3", "g8f6", "f3e5", "b8c6", "e5c6"],
        vec!["e2e4", "e7e5", "g1f3", "d7d6", "d2d4", "e5d4", "f3d4"],
        vec!["e2e4", "e7e5", "g1f3", "d7d6", "d2d4", "c8g4", "d4e5"],
        vec!["e2e4", "e7e5", "g1f3", "b8c6", "f1c4", "g8f6", "d2d3"],
        vec!["e2e4", "e7e5", "g1f3", "b8c6", "f1c4", "f8c5", "b2b4"],
        vec!["e2e4", "e7e5", "g1f3", "b8c6", "f1b5", "a7a6", "b5a4"],
        vec!["e2e4", "e7e5", "g1f3", "b8c6", "f1b5", "g8f6", "e1g1"],
        vec!["e2e4", "e7e5", "g1f3", "b8c6", "f1b5", "d7d6", "d2d4"],
        vec!["e2e4", "e7e5", "g1f3", "b8c6", "f1b5", "d7d6", "e1g1"],
        vec!["e2e4", "e7e5", "g1f3", "b8c6", "f1b5", "f8c5", "e1g1"],
        vec!["e2e4", "e7e5", "g1f3", "b8c6", "f1b5", "f8c5", "c2c3"],
        vec!["e2e4", "e7e5", "g1f3", "b8c6", "d2d4", "e5d4", "f3d4"],
        vec!["e2e4", "e7e5", "g1f3", "b8c6", "d2d4", "d7d6", "d4e5"],
        vec!["e2e4", "e7e5", "g1f3", "b8c6", "d2d4", "d7d6", "f1b5"],
        vec!["e2e4", "e7e5", "g1f3", "b8c6", "d2d4", "d7d6", "d4d5"],
        vec!["e2e4", "e7e5", "g1f3", "b8c6", "d2d4", "g8f6", "d4d5"],
        vec!["e2e4", "e7e5", "g1f3", "b8c6", "d2d4", "g8f6", "d4e5"],
        vec!["e2e4", "e7e5", "g1f3", "b8c6", "d2d4", "g8f6", "b1c3"],
        vec!["e2e4", "d7d5", "e4d5", "d8d5", "b1c3", "d5d6", "f1e2"],
        vec!["e2e4", "d7d5", "e4d5", "d8d5", "b1c3", "d5d8", "d2d4"],
        vec!["e2e4", "d7d5", "e4d5", "d8d5", "b1c3", "d5a5", "d2d4"],
        vec!["e2e4", "c7c5", "g1f3", "b8c6", "d2d4", "c5d4", "f3d4"],
        vec!["e2e4", "c7c5", "g1f3", "d7d6", "d2d4", "c5d4", "f3d4"],
        vec!["e2e4", "c7c5", "g1f3", "e7e6", "d2d4", "c5d4", "f3d4"],
        vec!["e2e4", "e7e6", "d2d4", "d7d5", "b1c3", "c7c5", "e4d5"],
        vec!["e2e4", "e7e6", "d2d4", "d7d5", "b1c3", "d5e4", "c3e4"],
        vec!["e2e4", "e7e6", "d2d4", "d7d5", "b1d2", "c7c5", "e4d5"],
        vec!["e2e4", "e7e6", "d2d4", "d7d5", "b1d2", "c7c5", "g1f3"],
        vec!["e2e4", "e7e6", "d2d4", "d7d5", "b1d2", "d5e4", "d2e4"],
        vec!["e2e4", "e7e6", "d2d4", "d7d5", "e4e5", "b8c6", "g1f3"],
        vec!["e2e4", "c7c6", "d2d4", "d7d5", "e4e5", "c8f5", "g1f3"],
        vec!["e2e4", "c7c6", "d2d4", "d7d5", "e4e5", "c8f5", "h2h4"],
        vec!["e2e4", "c7c6", "d2d4", "d7d5", "b1c3", "g8f6", "e4e5"],
        vec!["e2e4", "c7c6", "d2d4", "d7d5", "b1c3", "d5e4", "c3e4"],
        vec!["e2e4", "c7c6", "d2d4", "d7d5", "e4d5", "c6d5", "c2c4"],
        vec!["e2e4", "c7c6", "d2d4", "d7d5", "e4d5", "c6d5", "f1d3"],
        vec!["e2e4", "d7d6", "d2d4", "g8f6", "b1c3"],
        vec!["d2d4", "g8f6", "c1f4"],
        vec!["d2d4", "d7d5", "c1f4", "b8c6", "e2e3"],
        vec!["d2d4", "d7d5", "c1f4", "g8f6", "e2e3", "b8c6", "g1f3"],
        vec!["d2d4", "d7d5", "c1f4", "g8f6", "e2e3", "e7e6", "g1f3"],
        vec!["d2d4", "d7d5", "c1f4", "g8f6", "e2e3", "c7c5", "c2c3"],
        vec!["d2d4", "d7d5", "g1f3", "b8c6", "c1f4", "g8f6", "e2e3"],
        vec!["d2d4", "d7d5", "g1f3", "b8c6", "c1f4", "c8f5", "e2e3"],
        vec!["d2d4", "d7d5", "g1f3", "b8c6", "c2c4", "e7e6", "b1c3"],
        vec!["d2d4", "d7d5", "g1f3", "b8c6", "c2c4", "d5c4", "e2e3"],
        vec!["d2d4", "d7d5", "g1f3", "b8c6", "c2c4", "d5c4", "b1c3"],
        vec!["d2d4", "d7d5", "g1f3", "b8c6", "c2c4", "d5c4", "d4d5"],
        vec!["d2d4", "d7d5", "c2c4"],
        vec!["d2d4", "d7d5", "c2c4", "d5c4", "g1f3"],
        vec!["d2d4", "d7d5", "c2c4", "d5c4", "e2e3"],
        vec!["d2d4", "d7d5", "c2c4", "d5c4", "e2e4"],
        vec!["d2d4", "d7d5", "c2c4", "c7c6", "g1f3"],
        vec!["d2d4", "d7d5", "c2c4", "e7e6", "b1c3", "d5c4", "e2e4"],
        vec!["d2d4", "d7d5", "c2c4", "e7e6", "b1c3", "d5c4", "e2e3"],
        vec!["d2d4", "d7d5", "c2c4", "e7e6", "b1c3", "g8f6", "c4d5"],
        vec!["d2d4", "d7d5", "c2c4", "e7e6", "b1c3", "g8f6", "g1f3"],
        vec!["d2d4", "d7d5", "c2c4", "e7e6", "b1c3", "g8f6", "c1g5"],
        vec!["d2d4", "b8c6", "g1f3", "d7d5", "c1f4", "g8f6", "e2e3"],
        vec!["d2d4", "b8c6", "g1f3", "d7d5", "c1f4", "c8f5", "e2e3"],
        vec!["d2d4", "b8c6", "g1f3", "d7d5", "c1f4", "e7e6", "e2e3"],
        vec!["d2d4", "b8c6", "g1f3", "d7d5", "c2c4", "d5c4", "e2e3"],
        vec!["d2d4", "b8c6", "g1f3", "d7d5", "c2c4", "d5c4", "b1c3"],
        vec!["d2d4", "b8c6", "g1f3", "d7d5", "c2c4", "e7e6", "b1c3"],
        vec!["d2d4", "b8c6", "g1f3", "g8f6", "c2c4"],
        vec!["d2d4", "b8c6", "g1f3", "g8f6", "d4d5", "c6b4", "c2c4"],
    ]
}

/// The opening lines played for black, from the starting position.
fn black_lines() -> Vec<Vec<&'static str>> {
    vec![
        vec!["e2e4", "e7e5", "g1f3", "b8c6", "f1c4", "f8c5", "d2d3", "g8f6"],
        vec!["e2e4", "e7e5", "g1f3", "b8c6", "f1c4", "f8c5", "b2b4", "c5b4"],
        vec!["e2e4", "e7e5", "g1f3", "b8c6", "f1c4", "g8f6", "f3g5", "d7d5"],
        vec!["e2e4", "e7e5", "g1f3", "b8c6", "f1b5", "a7a6", "b5c6", "d7c6"],
        vec!["e2e4", "e7e5", "g1f3", "b8c6", "f1b5", "a7a6", "b5a4", "g8f6"],
        vec!["e2e4", "e7e5", "g1f3", "b8c6", "b1c3", "g8f6", "f1c4", "f6e4"],
        vec!["e2e4", "e7e5", "g1f3", "b8c6", "b1c3", "g8f6", "f1c4", "f8c5"],
        vec!["e2e4", "e7e5", "g1f3", "b8c6", "b1c3", "g8f6", "d2d4", "e5d4"],
        vec!["e2e4", "e7e5", "g1f3", "b8c6", "d2d4", "e5d4", "f3d4", "f8c5"],
        vec!["e2e4", "e7e5", "g1f3", "b8c6", "d2d4", "e5d4", "f3d4", "g8f6"],
        vec!["e2e4", "e7e5", "g1f3", "b8c6", "d2d4", "e5d4", "f1c4", "g8f6"],
        vec!["e2e4", "e7e5", "d2d4", "e5d4", "d1d4", "b8c6", "d4d1", "g8f6"],
        vec!["e2e4", "e7e5", "d2d4", "e5d4", "d1d4", "b8c6", "d4d1", "f8c5"],
        vec!["e2e4", "e7e5", "d2d4", "e5d4", "d1d4", "b8c6", "d4e3", "g8f6"],
        vec!["e2e4", "e7e5", "d2d4", "e5d4", "c2c3", "d7d5", "e4d5", "d8d5"],
        vec!["e2e4", "e7e5", "d2d4", "e5d4", "c2c3", "d4c3", "b1c3", "b8c6"],
        vec!["e2e4", "e7e5", "d2d4", "e5d4", "c2c3", "d4c3", "b1c3", "f8b4"],
        vec!["e2e4", "e7e5", "d2d4", "e5d4", "c2c3", "d4c3", "f1c4", "c3b2"],
        vec!["e2e4", "c7c6", "d2d4", "d7d5", "e4e5", "c8f5", "g1f3", "e7e6"],
        vec!["e2e4", "c7c6", "d2d4", "d7d5", "e4e5", "c8f5", "f1d3", "f5d3"],
        vec!["e2e4", "c7c6", "d2d4", "d7d5", "e4e5", "c8f5", "b1c3", "e7e6"],
        vec!["e2e4", "c7c6", "d2d4", "d7d5", "e4e5", "c8f5", "g2g4", "f5e4"],
        vec!["e2e4", "c7c6", "d2d4", "d7d5", "e4d5", "c6d5", "b1c3", "b8c6"],
        vec!["e2e4", "c7c6", "d2d4", "d7d5", "e4d5", "c6d5", "b1c3", "g8f6"],
        vec!["e2e4", "c7c6", "d2d4", "d7d5", "e4d5", "c6d5", "g1f3", "b8c6"],
        vec!["e2e4", "c7c6", "d2d4", "d7d5", "e4d5", "c6d5", "g1f3", "g8f6"],
        vec!["e2e4", "c7c6", "d2d4", "d7d5", "e4d5", "c6d5", "c2c4", "g8f6"],
        vec!["e2e4", "c7c6", "f1c4", "d7d5", "c4b3", "d5e4"],
        vec!["e2e4", "c7c6", "g1f3", "d7d5", "b1c3", "c8g4"],
        vec!["e2e4", "c7c6", "g1f3", "d7d5", "e4d5", "c6d5"],
        vec!["e2e4", "c7c6", "b1c3", "d7d5"],
        vec!["d2d4", "d7d5", "c2c4", "c7c6", "b1c3", "g8f6", "g1f3", "e7e6"],
        vec!["d2d4", "d7d5", "c2c4", "c7c6", "g1f3", "g8f6"],
        vec!["d2d4", "d7d5", "c2c4", "e7e6", "b1c3", "g8f6"],
        vec!["d2d4", "d7d5", "c2c4", "e7e6", "g1f3", "g8f6"],
        vec!["d2d4", "d7d5", "c1f4", "g8f6", "e2e3", "c7c5"],
        vec!["d2d4", "d7d5", "c1f4", "g8f6", "g1f3", "c7c5"],
        vec!["d2d4", "d7d5", "c1f4", "g8f6", "b1c3", "e7e6"],
        vec!["d2d4", "d7d5", "c1f4", "g8f6", "b1c3", "a7a6"],
        vec!["e2e3", "d7d5", "d2d4", "g8f6", "g1f3", "e7e6"],
        vec!["g1f3", "d7d5", "d2d4", "g8f6"],
        vec!["g1f3", "g8f6", "d2d4", "g7g6", "c2c4", "f8g7"],
    ]
}

} // verus!
