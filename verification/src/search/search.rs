use vstd::prelude::*;
use rand::seq::SliceRandom;
use crate::board::Board;
use crate::board::make::{
    lemma_can_unmake_after_make, lemma_unmake_after_make, lemma_same_position_unmake,
    lemma_same_position_unmake_null, lemma_unmake_null_after_make_null, lemma_same_position_playable,
    lemma_wf_keep,
};
use crate::moves_generation::generation::{
    checkmated, generate_all, generate_captures, has_step, king_in_check, lemma_checkmated_has_no_move,
    safe_king_step,
};
use crate::moves_generation::moves_list::{MoveList, MoveListIterator};
use crate::moves_generation::ordering::order;
use crate::search::book::Book;
use crate::search::eval::{Score, evaluate_with, trunc_div};
use crate::search::options::Options;
use crate::search::weights::{self, WeightSet};
use crate::transpositions::{TableScore, Transpositions};
use crate::types::{Bitboard, Move, Piece, Side};

verus! {

/// The number of killer moves kept per depth.
pub const KILLER_MOVES_STORED: usize = 3;

/// The deepest iteration of a search.
pub const MAX_DEPTH: i16 = 64;

/// The greatest score magnitude, so that every score can be negated.
pub const SCORE_BOUND: i16 = 32767;

/// `std::time::Instant`, a reading of the monotonic clock, carried through
/// the search and never looked into.
#[verifier::external_type_specification]
#[verifier::external_body]
pub struct ExInstant(std::time::Instant);

/// `std::time::Instant::now`: the current instant of a monotonic clock.
#[verifier::external_body]
fn now() -> std::time::Instant {
    std::time::Instant::now()
}

/// `Instant::elapsed` in whole milliseconds: the time since `start`, any
/// value the clock gives.
#[verifier::external_body]
fn millis_since(start: &std::time::Instant) -> u128 {
    start.elapsed().as_millis()
}

/// A score kept within the bound, so that it can be negated.
pub open spec fn bounded(s: Score) -> bool {
    -SCORE_BOUND <= s <= SCORE_BOUND
}

/// `a + b` kept within the score bound.
fn add_bounded(a: i32, b: i32) -> (r: Score)
    requires
        -100000 <= a <= 100000,
        -100000 <= b <= 100000,
    ensures
        bounded(r),
        r == (if a + b > 32767 {
            32767
        } else if a + b < -32767 {
            -32767
        } else {
            a + b
        }),
{
    let s = a + b;
    if s > 32767 {
        32767
    } else if s < -32767 {
        -32767
    } else {
        s as i16
    }
}

/// `SliceRandom::choose` with the thread's random number generator: a
/// move of `moves` picked at random, and nothing when there is none.
#[verifier::external_body]
fn choose_move(moves: &Vec<Move>) -> (r: Option<Move>)
    ensures
        moves@.len() == 0 <==> r is None,
        r matches Some(m) ==> moves@.contains(m),
{
    moves.choose(&mut rand::thread_rng()).copied()
}

/// Whether `moves` holds `m`.
fn book_moves_hold(moves: &Vec<Move>, m: Move) -> (r: bool)
    ensures
        r == moves@.contains(m),
{
    let mut i: usize = 0;
    while i < moves.len()
        invariant
            i <= moves@.len(),
            forall|k: int| 0 <= k < i ==> moves@[k] != m,
        decreases moves@.len() - i,
    {
        if moves[i] == m {
            assert(moves@[i as int] == m);
            return true;
        }
        i = i + 1;
    }
    false
}

/// The score of being mated `ply` moves from the root.
pub open spec fn spec_checkmate_score(ply: int) -> int {
    -(10000 - ply)
}

/// The position is drawn by repetition or by the fifty-move rule.
pub open spec fn drawn(b: Board) -> bool {
    (exists|i: int| 0 <= i < b.history@.len() && #[trigger] b.history@[i].hash == b.hash)
        || b.half_moves_clock >= 100
}

/// The table holds no score for the position of `hash`.
pub open spec fn table_misses(t: Transpositions, hash: u64) -> bool {
    t.entry(hash).hash != hash || t.entry(hash).score is Unknown
}

/// How the time for a move was set: the clocks, their difference, the
/// part of it used, the move number, the share of the clock and the target
/// in milliseconds.
#[derive(Copy, Clone)]
pub struct TimeReport {
    pub our_time: i32,
    pub opponent_time: i32,
    pub time_advantage: i64,
    pub advantage_modifier: i64,
    pub moves_count: u32,
    pub divider: i64,
    pub target: u128,
}

/// What one iteration of the search reports.
pub struct SearchInfo {
    pub depth: i16,
    pub seldepth: i16,
    pub score: Score,
    pub nodes: u64,
    pub millis: u128,
    pub hashfull: usize,
    pub tbhits: u64,
    pub pv: Vec<Move>,
    pub nodes_n: u64,
    pub nodes_z: u64,
    pub nodes_q: u64,
    pub delta_prunes: u64,
    pub aspiration_fail: bool,
    pub razoring_attempts: u64,
    pub razoring_success: u64,
}

/// An alpha-beta searcher of one position, with its transposition table,
/// killer moves and counters.
pub struct Searcher {
    pub board: Board,
    pub transpositions: Transpositions,
    pub book: bool,
    pub depth: i16,
    pub seldepth: i16,
    pub last_eval: Score,
    pub best_move: Move,
    pub killers: Vec<[Move; KILLER_MOVES_STORED]>,
    pub nodes: u64,
    pub tbhits: u64,
    pub nodes_n: u64,
    pub nodes_z: u64,
    pub nodes_q: u64,
    pub delta_prunes: u64,
    pub razoring_attempts: u64,
    pub razoring_success: u64,
    pub clock_queries: usize,
    pub start_time: std::time::Instant,
    pub target_time: u128,
    pub time_report: Option<TimeReport>,
    pub time_hit: bool,
    pub mid: WeightSet,
    pub end: WeightSet,
    pub infos: Vec<SearchInfo>,
    /// The opening book, once it has been built.
    pub openings: Option<Book>,
}

/// `n + 1`, staying at the largest value.
fn inc(n: u64) -> (r: u64)
    ensures
        r == (if n < u64::MAX {
            n + 1
        } else {
            n as int
        }),
{
    if n < u64::MAX {
        n + 1
    } else {
        n
    }
}

impl Searcher {
    /// The searcher can work: a position the generator reads, a well formed
    /// table, and one set of killer moves per depth.
    pub open spec fn ready(self) -> bool {
        &&& self.board.playable()
        &&& self.transpositions.wf()
        &&& self.killers@.len() == MAX_DEPTH
    }

    /// A searcher of `board` with `transpositions`, consulting the opening
    /// book when `book` is set.
    pub fn new(board: Board, transpositions: Transpositions, book: bool) -> (r: Self)
        ensures
            r.board == board,
            r.transpositions == transpositions,
            r.book == book,
            r.killers@.len() == MAX_DEPTH,
            r.depth == 0,
            r.last_eval == 0,
            r.best_move == Move::new_spec(),
            r.nodes == 0,
            !r.time_hit,
    {
        let mut killers: Vec<[Move; KILLER_MOVES_STORED]> = Vec::new();
        let mut i: i16 = 0;
        while i < MAX_DEPTH
            invariant
                0 <= i <= MAX_DEPTH,
                killers@.len() == i,
            decreases MAX_DEPTH - i,
        {
            killers.push([Move::new(), Move::new(), Move::new()]);
            i = i + 1;
        }
        Self {
            board,
            transpositions,
            book,
            depth: 0,
            seldepth: 0,
            last_eval: 0,
            best_move: Move::new(),
            killers,
            nodes: 0,
            tbhits: 0,
            nodes_n: 0,
            nodes_z: 0,
            nodes_q: 0,
            delta_prunes: 0,
            razoring_attempts: 0,
            razoring_success: 0,
            clock_queries: 0,
            start_time: now(),
            target_time: 0,
            time_report: None,
            time_hit: false,
            mid: WeightSet::mid_game(),
            end: WeightSet::end_game(),
            infos: Vec::new(),
            openings: None,
        }
    }
}

/// The score of being mated `ply` moves from the root.
fn checkmate_score(ply: i16) -> (r: Score)
    ensures
        bounded(r),
        0 <= ply <= 10000 ==> r == spec_checkmate_score(ply as int),
        ply <= 0 ==> r <= -10000,
{
    add_bounded(-10000, ply as i32)
}

/// A score read back from the table, kept within the bound.
fn bound_score(s: Score) -> (r: Score)
    ensures
        bounded(r),
        bounded(s) ==> r == s,
{
    if s < -32767 {
        -32767
    } else {
        s
    }
}

/// The negated score.
fn neg(s: Score) -> (r: Score)
    requires
        bounded(s),
    ensures
        bounded(r),
        r == -s,
{
    -s
}

/// The killer-move slot of `depth`.
/// The set of killer moves kept for `depth`.
pub open spec fn killer_index(depth: i16) -> int {
    if 0 < depth < MAX_DEPTH {
        depth as int
    } else {
        MAX_DEPTH - 1
    }
}

fn killer_slot(depth: i16) -> (r: usize)
    ensures
        r < MAX_DEPTH,
        r == killer_index(depth),
        0 < depth < MAX_DEPTH ==> r == depth,
{
    if depth > 0 && depth < MAX_DEPTH {
        depth as usize
    } else {
        (MAX_DEPTH - 1) as usize
    }
}

/// Whether `m` is one of the killer moves of a slot.
fn killers_contain(killers: &[Move; KILLER_MOVES_STORED], m: Move) -> (r: bool)
    ensures
        r == killers@.contains(m),
{
    let mut i: usize = 0;
    while i < KILLER_MOVES_STORED
        invariant
            i <= KILLER_MOVES_STORED,
            killers@.len() == KILLER_MOVES_STORED,
            forall|k: int| 0 <= k < i ==> killers@[k] != m,
        decreases KILLER_MOVES_STORED - i,
    {
        if killers[i] == m {
            assert(killers@[i as int] == m);
            return true;
        }
        i = i + 1;
    }
    false
}

impl Searcher {
    /// The moves of the side to move, or its captures, with their ordering
    /// weights, ready to be handed out best first.
    fn get_moves(&self, depth: i16, captures_only: bool) -> (r: MoveListIterator)
        requires
            self.ready(),
        ensures
            r.wf(),
            r.used == 0,
            self.board.all_accepted(r.list.moves@),
    {
        let moves = if captures_only {
            generate_captures(&self.board)
        } else {
            generate_all(&self.board)
        };
        let hash_move = self.transpositions.get_move(self.board.key());
        let slot = killer_slot(depth);
        let killers = self.killers[slot];
        let weights = order(&self.board, &moves, hash_move, &killers);
        let mut wide: Vec<i64> = Vec::new();
        let mut i: usize = 0;
        while i < weights.len()
            invariant
                i <= weights@.len(),
                wide@.len() == i,
            decreases weights@.len() - i,
        {
            wide.push(weights[i] as i64);
            i = i + 1;
        }
        let list = MoveList::new(moves, wide);
        list.into_iter()
    }

    /// Whether the time of the search is up; the clock is read once every
    /// thousand calls.
    fn out_of_time(&mut self) -> (r: bool)
        ensures
            final(self).best_move == old(self).best_move,
            final(self).board == old(self).board,
            final(self).transpositions == old(self).transpositions,
            final(self).killers == old(self).killers,
            old(self).time_hit ==> r,
            final(self).time_hit == (old(self).time_hit || r),
            final(self).depth == old(self).depth,
            final(self).mid == old(self).mid,
            final(self).end == old(self).end,
    {
        if self.time_hit {
            return true;
        }
        if self.clock_queries < usize::MAX {
            self.clock_queries = self.clock_queries + 1;
        }
        if self.clock_queries > 1000 {
            self.clock_queries = 0;
            if millis_since(&self.start_time) >= self.target_time {
                self.time_hit = true;
                return true;
            }
        }
        false
    }

    /// A score that ends the search of a node before its moves: none at the
    /// root; 0 when the time is up or the position is drawn; else the score
    /// the table holds for this depth and window.
    fn break_conditions(&mut self, depth: i16, alpha: Score, beta: Score) -> (r: Option<Score>)
        requires
            old(self).ready(),
        ensures
            final(self).best_move == old(self).best_move,
            final(self).board == old(self).board,
            final(self).transpositions == old(self).transpositions,
            final(self).killers == old(self).killers,
            r matches Some(s) ==> bounded(s),
            depth == old(self).depth ==> r is None,
            old(self).time_hit ==> final(self).time_hit,
            r is Some ==> final(self).time_hit || drawn(old(self).board) || !table_misses(
                old(self).transpositions,
                old(self).board.hash,
            ),
            final(self).depth == old(self).depth,
            final(self).mid == old(self).mid,
            final(self).end == old(self).end,
    {
        if depth == self.depth {
            return None;
        }
        if self.out_of_time() {
            return Some(0);
        }
        if self.board.draw_conditions() {
            return Some(0);
        }
        match self.transpositions.get(self.board.key(), depth, alpha, beta) {
            Some(score) => {
                self.tbhits = inc(self.tbhits);
                Some(bound_score(score))
            },
            None => None,
        }
    }

    /// The score of a node without moves: mate when in check, else a draw.
    fn no_moves_conditions(&self, ply: i16, moves: &MoveListIterator) -> (r: Option<Score>)
        requires
            self.ready(),
        ensures
            r matches Some(s) ==> bounded(s),
            r is Some <==> moves.list.moves@.len() == 0,
            moves.list.moves@.len() == 0 && !king_in_check(self.board) ==> r == Some(0i16),
            moves.list.moves@.len() == 0 && king_in_check(self.board) && 0 <= ply <= 10000 ==> r
                == Some(spec_checkmate_score(ply as int) as i16),
    {
        if !moves.list.is_empty() {
            None
        } else if self.board.in_check() {
            Some(checkmate_score(ply))
        } else {
            Some(0)
        }
    }

    /// How much to reduce the depth of a late quiet move far from the root.
    fn late_move_reduction(&self, depth: i16, m: Move, move_counter: i32) -> (r: i16)
        requires
            self.ready(),
        ensures
            0 <= r <= 2,
            r == (if self.depth - depth > 3 && move_counter > 4 && !self.killers@[killer_index(
                depth,
            )]@.contains(m) && !king_in_check(self.board) {
                if move_counter < 12 {
                    1int
                } else {
                    2int
                }
            } else {
                0int
            }),
    {
        let depth_from_root = (self.depth as i32) - (depth as i32);
        if depth_from_root > 3 && move_counter > 4 && !killers_contain(&self.killers[killer_slot(depth)], m)
            && !self.board.in_check()
        {
            if move_counter < 12 {
                1
            } else {
                2
            }
        } else {
            0
        }
    }

    /// Remembers a quiet move that refuted a line at `depth`, newest first.
    fn store_killer(&mut self, depth: i16, m: Move)
        requires
            old(self).killers@.len() == MAX_DEPTH,
        ensures
            final(self).best_move == old(self).best_move,
            final(self).board == old(self).board,
            final(self).transpositions == old(self).transpositions,
            final(self).killers@.len() == MAX_DEPTH,
            final(self).time_hit == old(self).time_hit,
            final(self).depth == old(self).depth,
            final(self).mid == old(self).mid,
            final(self).end == old(self).end,
    {
        let to = m.get_to();
        if self.board.any_piece.and(Bitboard::from_square(to)).not_empty() {
            return;
        }
        let slot = killer_slot(depth);
        let current = self.killers[slot];
        if killers_contain(&current, m) {
            return;
        }
        let updated = [m, current[0], current[1]];
        self.killers.set(slot, updated);
    }

    /// Narrows the window to the scores of the nearest mates; the score
    /// when the window closes.
    fn mate_distance_pruning(&self, ply: i16, alpha: Score, beta: Score) -> (r: (Option<Score>, Score, Score))
        requires
            bounded(alpha),
            bounded(beta),
        ensures
            bounded(r.1),
            bounded(r.2),
            r.0 matches Some(s) ==> bounded(s),
            0 <= ply <= 10000 ==> ({
                let mated = spec_checkmate_score(ply as int);
                let a = if alpha > mated {
                    alpha as int
                } else {
                    mated
                };
                let b = if beta < -mated {
                    beta as int
                } else {
                    -mated
                };
                if a >= b {
                    r.0 == Some(a as i16) && r.1 == alpha && r.2 == beta
                } else {
                    r.0 is None && r.1 == a && r.2 == b
                }
            }),
    {
        let mated = checkmate_score(ply);
        let new_alpha = if alpha > mated {
            alpha
        } else {
            mated
        };
        let mating = neg(mated);
        let new_beta = if beta < mating {
            beta
        } else {
            mating
        };
        if new_alpha >= new_beta {
            return (Some(new_alpha), alpha, beta);
        }
        (None, new_alpha, new_beta)
    }
}

/// The score from the side to move's point of view of a white score.
fn relative(eval: Score, side: Side) -> (r: i32)
    ensures
        r == (if side == Side::White {
            eval as int
        } else {
            -(eval as int)
        }),
{
    match side {
        Side::White => eval as i32,
        Side::Black => -(eval as i32),
    }
}

impl Searcher {
    /// The state a search call keeps: the position, a well formed table,
    /// the killer moves, the iteration depth and the weights.
    pub open spec fn kept(self, prev: Searcher) -> bool {
        &&& self.kept_at_root(prev)
        &&& self.best_move == prev.best_move
    }

    /// What a search from the root keeps: the same as `kept`, except that
    /// the best move may be replaced by a move of the side to move that the
    /// position accepts.
    pub open spec fn kept_at_root(self, prev: Searcher) -> bool {
        &&& self.ready()
        &&& self.board.same_position(prev.board)
        &&& self.depth == prev.depth
        &&& self.mid == prev.mid
        &&& self.end == prev.end
        &&& (self.best_move == prev.best_move || (prev.board.accepts(self.best_move)
            && prev.board.mover(self.best_move) == prev.board.current_color))
        &&& (prev.time_hit ==> self.time_hit)
    }

    /// The side to move is checkmated; the position is not drawn, and the
    /// table holds no score for it.
    pub open spec fn checkmated_unseen(self) -> bool {
        &&& checkmated(self.board)
        &&& !drawn(self.board)
        &&& table_misses(self.transpositions, self.board.hash)
    }

    /// Makes `m`, scores the position after it for the side to move here
    /// (by a zero-window search against `alpha`, or a full search of the
    /// window), and takes `m` back. A position the generator cannot read
    /// (a king was taken) scores 0. The board ends as it began.
    ///
    /// The score of the move is the negation of the score of the position
    /// after it for the opponent: so a move that checkmates, into a
    /// position neither drawn nor scored in the table, with the time not
    /// up, scores at least the window's upper end or the score of mating at
    /// the next ply.
    fn search_move(&mut self, m: Move, ply: i16, child_depth: i16, alpha: Score, beta: Score, zero: bool) -> (r: Score)
        requires
            old(self).ready(),
            old(self).board.accepts(m),
            old(self).board.mover(m) == old(self).board.current_color,
            bounded(alpha),
            bounded(beta),
            0 <= ply < 29999,
        ensures
            final(self).kept(*old(self)),
            bounded(r),
            (forall|b1: Board| #[trigger] old(self).board.makes(m, b1) ==> checkmated(b1) && !drawn(b1)
                && table_misses(old(self).transpositions, b1.hash)) && !final(self).time_hit && ply < 10000
                && old(self).board.half_moves_clock < u32::MAX - 1 && old(self).board.full_moves_count < u32::MAX
                - 1 ==> (if zero {
                r > alpha
            } else {
                r >= beta
            }) || r >= 10000 - (ply + 1),
        decreases (if child_depth > 0 {
            child_depth as int
        } else {
            0
        }) + 1, 0int, 0int,
    {
        let ghost before = self.board;
        if self.board.half_moves_clock >= u32::MAX - 1 || self.board.full_moves_count >= u32::MAX - 1 {
            return 0;
        }
        self.board.make_move(m);
        let ghost b1 = self.board;
        proof {
            lemma_can_unmake_after_make(before, m, b1);
            assert(before.makes(m, b1));
        }
        let mut score: Score = 0;
        if self.board.is_playable() {
            if zero {
                score = neg(self.zero_window(ply + 1, child_depth, neg(alpha), false));
            } else {
                score = neg(self.negamax(ply + 1, child_depth, neg(beta), neg(alpha), false));
            }
        }
        let ghost b1_after = self.board;
        proof {
            lemma_same_position_unmake(b1, b1_after);
        }
        self.board.unmake_move();
        proof {
            assert(b1_after.unmakes(self.board));
            lemma_unmake_after_make(before, m, b1, self.board);
            lemma_same_position_playable(before, self.board);
        }
        score
    }

    /// Principal variation search of the position to `depth`, within the
    /// window `alpha`..`beta`, `ply` moves from the root: the score for the
    /// side to move, with the table and killer moves updated. At the root
    /// the best move is kept.
    pub fn negamax(&mut self, ply: i16, depth: i16, alpha: Score, beta: Score, root: bool) -> (r: Score)
        requires
            old(self).ready(),
            bounded(alpha),
            bounded(beta),
            0 <= ply < 30000,
        ensures
            final(self).kept_at_root(*old(self)),
            !root ==> final(self).kept(*old(self)),
            bounded(r),
            old(self).checkmated_unseen() && !final(self).time_hit && ply <= 10000 ==> r <= alpha || r
                <= spec_checkmate_score(ply as int),
        decreases (if depth > 0 {
            depth as int
        } else {
            0
        }), 2int, 0int,
    {
        if depth <= 0 {
            return self.qsearch(ply, 0, alpha, beta);
        }
        let ghost start = *self;
        match self.break_conditions(depth, alpha, beta) {
            Some(score) => {
                return score;
            },
            None => {},
        }
        let (closed, mut alpha, beta) = self.mate_distance_pruning(ply, alpha, beta);
        match closed {
            Some(score) => {
                return score;
            },
            None => {},
        }
        self.nodes = inc(self.nodes);
        self.nodes_n = inc(self.nodes_n);
        let mut moves = self.get_moves(depth, false);
        proof {
            if checkmated(self.board) {
                lemma_checkmated_has_no_move(self.board, moves.list.moves@);
            }
        }
        match self.no_moves_conditions(ply, &moves) {
            Some(score) => {
                return score;
            },
            None => {},
        }
        if ply >= 29990 {
            return alpha;
        }
        let ghost b0 = self.board;
        let mut best = Move::new();
        let mut found_exact = false;
        let mut move_counter: i32 = 0;
        loop
            invariant
                self.kept_at_root(start),
                !root ==> self.kept(start),
                start == *old(self),
                !checkmated(start.board),
                b0.same_position(start.board),
                self.board.same_position(b0),
                b0.playable(),
                b0.all_accepted(moves.list.moves@),
                moves.wf(),
                bounded(alpha),
                bounded(beta),
                0 <= ply < 29990,
                depth > 0,
                0 <= move_counter,
            decreases moves.list.moves@.len() - moves.used,
        {
            let ghost list_before = moves.list.moves@;
            let ghost used_before = moves.used as int;
            let ghost weights_before = moves.list.weights@;
            let next = moves.next();
            let m = match next {
                Some(m) => m,
                None => {
                    break;
                },
            };
            proof {
                lemma_next_accepted(b0, list_before, used_before, weights_before, moves.list.moves@, m);
                lemma_wf_keep(b0, self.board);
            }
            let score = if move_counter == 0 {
                self.search_move(m, ply, depth - 1, alpha, beta, false)
            } else {
                let reduction = self.late_move_reduction(depth, m, move_counter);
                let first = self.search_move(m, ply, depth - 1 - reduction, alpha, beta, true);
                if first > alpha {
                    self.search_move(m, ply, depth - 1, alpha, beta, false)
                } else {
                    first
                }
            };
            if self.time_hit {
                return 0;
            }
            if score >= beta {
                let key = self.board.key();
                self.transpositions.set(key, depth, TableScore::AtLeast(beta), m);
                self.store_killer(depth, m);
                return beta;
            }
            if score > alpha {
                best = m;
                found_exact = true;
                alpha = score;
                if root {
                    self.best_move = m;
                    proof {
                        lemma_same_position_accepts(b0, start.board, m);
                    }
                }
            }
            if move_counter < 1000000 {
                move_counter = move_counter + 1;
            }
        }
        let key = self.board.key();
        self.transpositions.set(key, depth, TableScore::from_alpha(alpha, found_exact), best);
        let reached = (self.depth as i32) - (depth as i32);
        if reached > self.seldepth as i32 && reached <= 32767 {
            self.seldepth = reached as i16;
        }
        alpha
    }
}

/// Boards with the same position accept the same moves, of the same side.
proof fn lemma_same_position_accepts(a: Board, b: Board, m: Move)
    requires
        a.same_position(b),
    ensures
        a.accepts(m) == b.accepts(m),
        a.mover(m) == b.mover(m),
{
    if a.wf() {
        lemma_wf_keep(a, b);
    }
    if b.wf() {
        lemma_wf_keep(b, a);
    }
}

/// After `next`, the list still holds only moves the board accepts, and the
/// move handed out is one of them.
proof fn lemma_next_accepted(
    b: Board,
    before: Seq<Move>,
    used: int,
    weights: Seq<i64>,
    after: Seq<Move>,
    m: Move,
)
    requires
        b.all_accepted(before),
        0 <= used < before.len(),
        weights.len() == before.len(),
        m == before[crate::moves_generation::moves_list::pick(weights, used, before.len() as int).1],
        after == before.update(used, before[crate::moves_generation::moves_list::pick(weights, used, before.len() as int).1]).update(
            crate::moves_generation::moves_list::pick(weights, used, before.len() as int).1,
            before[used],
        ),
    ensures
        b.all_accepted(after),
        b.accepts(m),
        b.mover(m) == b.current_color,
        after.len() == before.len(),
{
    crate::moves_generation::moves_list::lemma_pick_in_range(weights, used, before.len() as int);
    let k = crate::moves_generation::moves_list::pick(weights, used, before.len() as int).1;
    assert(b.accepts(before[k]));
    assert forall|j: int| 0 <= j < after.len() implies b.accepts(#[trigger] after[j]) && b.mover(after[j]) == b.current_color by {
        if j == k {
            assert(b.accepts(before[used]));
        } else if j == used {
            assert(b.accepts(before[k]));
        } else {
            assert(b.accepts(before[j]));
        }
    }
}

impl Searcher {
    /// Zero-window search of the position to `depth`, against `beta`: a
    /// score of at least `beta` when the position holds it, else below.
    /// Prunes by razoring, reverse futility and a null move, reduces late
    /// moves, and updates the table and killer moves.
    pub fn zero_window(&mut self, ply: i16, depth: i16, beta: Score, last_null: bool) -> (r: Score)
        requires
            old(self).ready(),
            bounded(beta),
            0 <= ply < 30000,
        ensures
            final(self).kept(*old(self)),
            bounded(r),
            old(self).checkmated_unseen() && !final(self).time_hit && ply <= 10000 ==> r < beta || r
                <= spec_checkmate_score(ply as int),
        decreases (if depth > 0 {
            depth as int
        } else {
            0
        }), 2int, 0int,
    {
        let below = add_bounded(beta as i32, -1);
        if depth <= 0 {
            return self.qsearch(ply, 0, below, beta);
        }
        let ghost start = *self;
        match self.break_conditions(depth, below, beta) {
            Some(score) => {
                return score;
            },
            None => {},
        }
        let (closed, _, beta) = self.mate_distance_pruning(ply, below, beta);
        match closed {
            Some(score) => {
                return score;
            },
            None => {},
        }
        let below = add_bounded(beta as i32, -1);
        let side = self.board.side_to_move();
        let current_eval = relative(evaluate_with(&self.board, &self.mid, &self.end), side);
        let in_check = self.board.in_check();

        let d = depth as i64;
        assert(0 <= 200 * d * d <= 300000000000) by (nonlinear_arith)
            requires
                -32768 <= d <= 32767,
        ;
        if !in_check && (current_eval as i64) + 500 + 200 * d * d < (below as i64) {
            self.razoring_attempts = inc(self.razoring_attempts);
            let quiescence_eval = self.qsearch(ply, 0, below, beta);
            if quiescence_eval < below {
                self.razoring_success = inc(self.razoring_success);
                return quiescence_eval;
            }
        }

        if !last_null && !in_check && depth < 3 {
            let margin: i32 = if depth == 1 {
                weights::acquire(&weights::BASE_SCORES, Piece::Bishop) as i32
            } else if depth == 2 {
                weights::acquire(&weights::BASE_SCORES, Piece::Rook) as i32
            } else {
                0
            };
            if current_eval - margin > beta as i32 {
                return beta;
            }
        }

        if !last_null && !in_check && self.board.any_piece.pieces() > 8 && ply < 29990
            && self.board.half_moves_clock < u32::MAX - 1 && self.board.full_moves_count < u32::MAX
                - 1
        {
            let null_reduction = 1 + ((depth as i32) * 2) / 3;
            let ghost before = self.board;
            self.board.make_null();
            let ghost b1 = self.board;
            let mut value: Score = 0;
            if self.board.is_playable() {
                value = neg(self.zero_window(ply + 2, (depth as i32 - null_reduction) as i16, add_bounded(1, -(beta as i32)), true));
            }
            let ghost b1_after = self.board;
            proof {
                lemma_same_position_unmake_null(b1, b1_after);
                lemma_wf_keep(b1, b1_after);
            }
            self.board.unmake_null();
            proof {
                assert(b1_after.unmakes_null(self.board));
                lemma_unmake_null_after_make_null(before, b1, self.board);
                lemma_same_position_playable(before, self.board);
            }
            if value >= beta {
                return beta;
            }
        }

        self.nodes = inc(self.nodes);
        self.nodes_z = inc(self.nodes_z);
        let mut moves = self.get_moves(depth, false);
        proof {
            if checkmated(start.board) {
                assert(self.board == start.board);
                lemma_checkmated_has_no_move(self.board, moves.list.moves@);
            }
        }
        match self.no_moves_conditions(ply, &moves) {
            Some(score) => {
                return score;
            },
            None => {},
        }

        let ghost orig_depth = depth;
        let mut search_depth = depth;
        if search_depth > 4 && self.transpositions.get_move(self.board.key()).is_none() {
            search_depth = search_depth - 2;
        }
        if search_depth <= 0 {
            return self.qsearch(ply, 0, below, beta);
        }
        if ply >= 29990 {
            return below;
        }

        let ghost b0 = self.board;
        let mut move_counter: i32 = 0;
        loop
            invariant
                self.kept(start),
                start == *old(self),
                !checkmated(start.board),
                b0.same_position(start.board),
                self.board.same_position(b0),
                b0.playable(),
                b0.all_accepted(moves.list.moves@),
                moves.wf(),
                bounded(beta),
                bounded(below),
                0 <= ply < 29990,
                0 < search_depth <= orig_depth,
                orig_depth == depth,
                0 <= move_counter,
            decreases moves.list.moves@.len() - moves.used,
        {
            let ghost list_before = moves.list.moves@;
            let ghost used_before = moves.used as int;
            let ghost weights_before = moves.list.weights@;
            let next = moves.next();
            let m = match next {
                Some(m) => m,
                None => {
                    break;
                },
            };
            proof {
                lemma_next_accepted(b0, list_before, used_before, weights_before, moves.list.moves@, m);
                lemma_wf_keep(b0, self.board);
            }
            let reduction = self.late_move_reduction(search_depth, m, move_counter);
            let eval = self.search_move(m, ply, search_depth - 1 - reduction, below, beta, true);
            if eval >= beta {
                let key = self.board.key();
                self.transpositions.set(key, search_depth, TableScore::AtLeast(beta), m);
                self.store_killer(search_depth, m);
                return beta;
            }
            if move_counter < 1000000 {
                move_counter = move_counter + 1;
            }
        }
        below
    }

    /// Quiescence search: the static evaluation, improved by captures until
    /// the position is quiet, within the window `alpha`..`beta`.
    pub fn qsearch(&mut self, ply: i16, depth: i16, alpha: Score, beta: Score) -> (r: Score)
        requires
            old(self).ready(),
            bounded(alpha),
            bounded(beta),
            0 <= ply < 30000,
            depth <= 0,
        ensures
            final(self).kept(*old(self)),
            bounded(r),
            old(self).checkmated_unseen() && !final(self).time_hit && ply <= 10000 ==> r <= alpha || r
                <= spec_checkmate_score(ply as int),
        decreases 0int, 1int, 2 * (depth as int + 40000) + 1,
    {
        let ghost start = *self;
        match self.break_conditions(depth, alpha, beta) {
            Some(score) => {
                return score;
            },
            None => {},
        }
        let (closed, alpha, beta) = self.mate_distance_pruning(ply, alpha, beta);
        match closed {
            Some(score) => {
                return score;
            },
            None => {},
        }
        let side = self.board.side_to_move();
        self.nodes = inc(self.nodes);
        self.nodes_q = inc(self.nodes_q);

        if self.board.in_checkmate() {
            return checkmate_score(depth);
        }

        let score = relative(evaluate_with(&self.board, &self.mid, &self.end), side);
        let delta_margin = weights::acquire(&weights::BASE_SCORES, Piece::Queen) as i32;

        if score + delta_margin < alpha as i32 && !self.board.in_check() {
            self.delta_prunes = inc(self.delta_prunes);
            return alpha;
        }
        if score >= beta as i32 {
            return beta;
        }
        let mut alpha = alpha;
        if score > alpha as i32 {
            alpha = add_bounded(score, 0);
        }
        if depth <= -32000 || ply >= 29999 {
            return alpha;
        }

        let mut moves = self.get_moves(depth, true);
        let mut best = Move::new();
        let mut found_exact = false;
        let ghost b0 = self.board;
        loop
            invariant
                self.kept(start),
                start == *old(self),
                !checkmated(start.board),
                b0.same_position(start.board),
                self.board.same_position(b0),
                b0.playable(),
                b0.all_accepted(moves.list.moves@),
                moves.wf(),
                bounded(alpha),
                bounded(beta),
                0 <= ply < 29999,
                -32000 < depth <= 0,
            decreases moves.list.moves@.len() - moves.used,
        {
            let ghost list_before = moves.list.moves@;
            let ghost used_before = moves.used as int;
            let ghost weights_before = moves.list.weights@;
            let next = moves.next();
            let capture = match next {
                Some(m) => m,
                None => {
                    break;
                },
            };
            proof {
                lemma_next_accepted(b0, list_before, used_before, weights_before, moves.list.moves@, capture);
                lemma_wf_keep(b0, self.board);
            }
            let score = self.search_capture(capture, ply, depth, alpha, beta);
            if self.time_hit {
                return 0;
            }
            if score >= beta {
                let key = self.board.key();
                self.transpositions.set(key, depth, TableScore::AtLeast(beta), capture);
                return beta;
            }
            if score > alpha {
                alpha = score;
                best = capture;
                found_exact = true;
            }
        }
        if best != Move::new() {
            let key = self.board.key();
            self.transpositions.set(key, depth, TableScore::from_alpha(alpha, found_exact), best);
            let reached = (self.depth as i32) - (depth as i32);
            if reached > self.seldepth as i32 && reached <= 32767 {
                self.seldepth = reached as i16;
            }
        }
        alpha
    }

    /// Makes the capture, scores the position after it by quiescence search,
    /// and takes it back. The board ends as it began.
    ///
    /// The score of the capture is the negation of the score of the position
    /// after it for the opponent: so a capture that checkmates, into a
    /// position neither drawn nor scored in the table, with the time not
    /// up, scores at least `beta` or the score of mating at the next ply.
    fn search_capture(&mut self, capture: Move, ply: i16, depth: i16, alpha: Score, beta: Score) -> (r: Score)
        requires
            old(self).ready(),
            old(self).board.accepts(capture),
            old(self).board.mover(capture) == old(self).board.current_color,
            bounded(alpha),
            bounded(beta),
            0 <= ply < 29999,
            -32000 < depth <= 0,
        ensures
            final(self).kept(*old(self)),
            bounded(r),
            (forall|b1: Board| #[trigger] old(self).board.makes(capture, b1) ==> checkmated(b1) && !drawn(b1)
                && table_misses(old(self).transpositions, b1.hash)) && !final(self).time_hit && ply < 10000
                && old(self).board.half_moves_clock < u32::MAX - 1 && old(self).board.full_moves_count < u32::MAX
                - 1 ==> r >= beta || r >= 10000 - (ply + 1),
        decreases 0int, 1int, 2 * (depth as int + 40000),
    {
        let ghost before = self.board;
        if self.board.half_moves_clock >= u32::MAX - 1 || self.board.full_moves_count >= u32::MAX - 1 {
            return 0;
        }
        self.board.make_move(capture);
        let ghost b1 = self.board;
        proof {
            lemma_can_unmake_after_make(before, capture, b1);
            assert(before.makes(capture, b1));
        }
        let mut score: Score = 0;
        if self.board.is_playable() {
            score = neg(self.qsearch(ply + 1, depth - 1, neg(beta), neg(alpha)));
        }
        let ghost b1_after = self.board;
        proof {
            lemma_same_position_unmake(b1, b1_after);
        }
        self.board.unmake_move();
        proof {
            assert(b1_after.unmakes(self.board));
            lemma_unmake_after_make(before, capture, b1, self.board);
            lemma_same_position_playable(before, self.board);
        }
        score
    }
}

/// Whether `m` is in the list.
fn contains_move(moves: &Vec<Move>, m: Move) -> (r: bool)
    ensures
        r == moves@.contains(m),
{
    let mut i: usize = 0;
    while i < moves.len()
        invariant
            i <= moves@.len(),
            forall|k: int| 0 <= k < i ==> moves@[k] != m,
        decreases moves@.len() - i,
    {
        if moves[i] == m {
            assert(moves@[i as int] == m);
            return true;
        }
        i = i + 1;
    }
    false
}

/// The share of the clock for a move, by move number.
pub open spec fn spec_divider(full_moves: u32) -> int {
    if full_moves < 2 {
        60
    } else if full_moves < 4 {
        25
    } else if full_moves < 6 {
        12
    } else {
        8
    }
}

/// The milliseconds to spend on a move: the requested time less a margin
/// of 100, taken modulo 2^128 as the conversion of a negative difference
/// to `u128` does (so that a request below 100 leaves the search
/// unlimited in time); else the clock of `side` shared by move number,
/// plus a quarter of a positive lead on the opponent's clock, and never
/// below zero.
pub open spec fn planned_time(options: Options, side: Side, full_moves: u32) -> int {
    match options.target_time {
        Some(requested) => if requested >= 100 {
            requested - 100
        } else {
            requested - 100 + 0x1_0000_0000_0000_0000_0000_0000_0000_0000
        },
        None => {
            let ours: int = if side == Side::White {
                options.white_time as int
            } else {
                options.black_time as int
            };
            let theirs: int = if side == Side::White {
                options.black_time as int
            } else {
                options.white_time as int
            };
            let lead = ours - theirs;
            let bonus = if lead > 0 {
                lead / 4
            } else {
                0
            };
            let total = trunc_div(ours, spec_divider(full_moves)) + bonus;
            if total >= 0 {
                total
            } else {
                0
            }
        },
    }
}

impl Searcher {
    /// The moves the table gives from the position, as far as each is
    /// legal, up to `limit` of them.
    pub fn get_pv(&mut self, limit: i16) -> (r: Vec<Move>)
        requires
            old(self).ready(),
        ensures
            final(self).kept(*old(self)),
            r@.len() <= (if limit > 0 {
                limit as int
            } else {
                0
            }),
            r@.len() > 0 ==> {
                &&& Some(r@[0]) == crate::transpositions::transpositions::entry_move(
                    old(self).transpositions.entry(old(self).board.hash),
                    old(self).board.hash,
                )
                &&& old(self).board.accepts(r@[0])
                &&& old(self).board.mover(r@[0]) == old(self).board.current_color
            },
        decreases limit,
    {
        if limit <= 0 {
            return Vec::new();
        }
        let moves = generate_all(&self.board);
        let best = self.transpositions.get_move(self.board.key());
        match best {
            Some(m) => {
                if !contains_move(&moves, m) {
                    return Vec::new();
                }
                let ghost before = self.board;
                proof {
                    let k = choose|k: int| 0 <= k < moves@.len() && moves@[k] == m;
                    assert(self.board.accepts(moves@[k]));
                }
                if self.board.half_moves_clock >= u32::MAX - 1 || self.board.full_moves_count >= u32::MAX - 1 {
                    return Vec::new();
                }
                self.board.make_move(m);
                let ghost b1 = self.board;
                proof {
                    lemma_can_unmake_after_make(before, m, b1);
                }
                let mut rest: Vec<Move> = Vec::new();
                if self.board.is_playable() {
                    rest = self.get_pv(limit - 1);
                }
                let ghost b1_after = self.board;
                proof {
                    lemma_same_position_unmake(b1, b1_after);
                }
                self.board.unmake_move();
                proof {
                    assert(b1_after.unmakes(self.board));
                    lemma_unmake_after_make(before, m, b1, self.board);
                    lemma_same_position_playable(before, self.board);
                }
                let mut result: Vec<Move> = Vec::new();
                result.push(m);
                let mut i: usize = 0;
                while i < rest.len()
                    invariant
                        i <= rest@.len(),
                        result@.len() == i + 1,
                        result@[0] == m,
                    decreases rest@.len() - i,
                {
                    result.push(rest[i]);
                    i = i + 1;
                }
                result
            },
            None => Vec::new(),
        }
    }

    /// The milliseconds to spend on this move: the requested time less a
    /// margin, else a share of the clock by move number plus a part of the
    /// time advantage. Kept in `time_report` when taken from the clock.
    fn calculate_target_time(&mut self, options: &Options) -> (r: u128)
        requires
            old(self).ready(),
            options.target_time matches Some(t) ==> t >= i32::MIN + 100,
        ensures
            final(self).kept(*old(self)),
            final(self).transpositions == old(self).transpositions,
            final(self).killers == old(self).killers,
            r == planned_time(*options, old(self).board.current_color, old(self).board.full_moves_count),
    {
        match options.target_time {
            Some(requested) => {
                if requested >= 100 {
                    return (requested - 100) as u128;
                }
                return u128::MAX - ((99 - requested) as u128);
            },
            None => {},
        }
        let side = self.board.side_to_move();
        let our_time = side.pick(options.white_time, options.black_time);
        let opponent_time = side.opponent().pick(options.white_time, options.black_time);
        let time_advantage = (our_time as i64) - (opponent_time as i64);
        let time_advantage_modifier = if time_advantage > 0 {
            time_advantage / 4
        } else {
            time_advantage / 8
        };
        let moves = self.board.full_moves_count;
        let divider: i64 = if moves < 2 {
            60
        } else if moves < 4 {
            25
        } else if moves < 6 {
            12
        } else {
            8
        };
        let bonus = if time_advantage_modifier > 0 {
            time_advantage_modifier
        } else {
            0
        };
        let total = (our_time as i64) / divider + bonus;
        let result = if total >= 0 {
            total as u128
        } else {
            0
        };
        self.time_report = Some(
            TimeReport {
                our_time,
                opponent_time,
                time_advantage,
                advantage_modifier: time_advantage_modifier,
                moves_count: moves,
                divider,
                target: result,
            },
        );
        result
    }

    /// A move of the opening book for the position, picked at random among
    /// the legal moves the book holds; nothing when the book is not
    /// consulted or holds none.
    fn get_book_move(&mut self) -> (r: Option<Move>)
        requires
            old(self).ready(),
        ensures
            *final(self) == (Searcher { openings: final(self).openings, ..*old(self) }),
            !old(self).book ==> r is None,
            r matches Some(m) ==> old(self).board.accepts(m) && old(self).board.mover(m)
                == old(self).board.current_color,
    {
        if !self.book {
            return None;
        }
        if self.openings.is_none() {
            self.openings = Some(Book::prepare(self.board.zobrist));
        }
        let found = match &self.openings {
            Some(book) => book.search(self.board.current_color, self.board.full_moves_count, self.board.key()),
            None => None,
        };
        match found {
            None => None,
            Some(book_moves) => {
                let legal = generate_all(&self.board);
                let mut candidates: Vec<Move> = Vec::new();
                let mut i: usize = 0;
                while i < legal.len()
                    invariant
                        i <= legal@.len(),
                        self.board.all_accepted(legal@),
                        self.board.all_accepted(candidates@),
                    decreases legal@.len() - i,
                {
                    let m = legal[i];
                    if book_moves_hold(&book_moves, m) {
                        assert(self.board.accepts(legal@[i as int]));
                        candidates.push(m);
                    }
                    i = i + 1;
                }
                let chosen = choose_move(&candidates);
                match chosen {
                    Some(m) => {
                        proof {
                            let k = choose|k: int| 0 <= k < candidates@.len() && candidates@[k] == m;
                            assert(self.board.accepts(candidates@[k]));
                        }
                    },
                    None => {},
                }
                chosen
            },
        }
    }

    /// Searches the position by iterative deepening within the time and
    /// depth limits, keeping what each iteration found in `infos`, and
    /// returns the best move found. The position is left as it was.
    pub fn go(&mut self, options: Options) -> (r: Move)
        requires
            old(self).ready(),
            options.target_time matches Some(t) ==> t >= i32::MIN + 100,
        ensures
            final(self).ready(),
            final(self).board.same_position(old(self).board),
            r == Move::new_spec() || (old(self).board.accepts(r) && old(self).board.mover(r)
                == old(self).board.current_color),
            (exists|t: int| safe_king_step(old(self).board, t)) ==> r != Move::new_spec(),
    {
        proof {
            Move::lemma_empty_move_squares();
        }
        match self.get_book_move() {
            Some(m) => {
                return m;
            },
            None => {},
        }
        let requested_depth = match options.depth {
            Some(d) => d,
            None => 32767,
        };
        let target_depth = if requested_depth < MAX_DEPTH - 1 {
            requested_depth
        } else {
            MAX_DEPTH - 1
        };
        self.start_time = now();
        self.time_hit = false;
        self.infos = Vec::new();
        let ghost start = *self;
        self.target_time = self.calculate_target_time(&options);

        let mut eval = bound_score(self.last_eval);
        let mut abs_eval: Score = 0;
        let mut best_move = Move::new();
        let mut pv: Vec<Move> = Vec::new();
        let mut consecutive_evals: u32 = 0;
        let mut last_turn = eval;
        let mut last_move = Move::new();

        let mut current_depth: i16 = 1;
        while current_depth <= target_depth
            invariant
                self.ready(),
                self.board.same_position(start.board),
                start.board == old(self).board,
                start.best_move == old(self).best_move,
                self.best_move == start.best_move || (start.board.accepts(self.best_move)
                    && start.board.mover(self.best_move) == start.board.current_color),
                best_move == Move::new_spec() || best_move == start.best_move || (start.board.accepts(best_move)
                    && start.board.mover(best_move) == start.board.current_color),
                bounded(eval),
                bounded(abs_eval),
                target_depth < MAX_DEPTH,
                1 <= current_depth <= MAX_DEPTH,
            decreases MAX_DEPTH - current_depth,
        {
            let iter_start = now();
            let last_eval = eval;
            self.depth = current_depth;
            self.seldepth = 0;
            let window_size: i32 = 40;
            let mut aspiration_fail = false;

            let ghost before = *self;
            eval = self.negamax(
                0,
                current_depth,
                add_bounded(last_eval as i32, -window_size),
                add_bounded(last_eval as i32, window_size),
                true,
            );
            proof {
                lemma_same_position_accepts(before.board, start.board, self.best_move);
            }
            if self.time_hit {
                break;
            }
            let difference = (last_eval as i32) - (eval as i32);
            if difference >= window_size || difference <= -window_size {
                aspiration_fail = true;
                let ghost again = *self;
                eval = self.negamax(0, current_depth, -32767, 32767, true);
                proof {
                    lemma_same_position_accepts(again.board, start.board, self.best_move);
                }
                if self.time_hit {
                    break;
                }
            }

            best_move = self.best_move;
            abs_eval = match self.board.side_to_move() {
                Side::White => eval,
                Side::Black => neg(eval),
            };
            pv = self.get_pv(current_depth);

            let time_taken = millis_since(&self.start_time);
            let iter_taken = millis_since(&iter_start);

            let info = SearchInfo {
                depth: self.depth,
                seldepth: if self.seldepth > current_depth {
                    self.seldepth
                } else {
                    current_depth
                },
                score: abs_eval,
                nodes: self.nodes,
                millis: time_taken,
                hashfull: self.transpositions.usage(),
                tbhits: self.tbhits,
                pv: clone_moves(&pv),
                nodes_n: self.nodes_n,
                nodes_z: self.nodes_z,
                nodes_q: self.nodes_q,
                delta_prunes: self.delta_prunes,
                aspiration_fail,
                razoring_attempts: self.razoring_attempts,
                razoring_success: self.razoring_success,
            };
            self.infos.push(info);

            if time_taken >= self.target_time || iter_taken > self.target_time / 8 {
                break;
            }

            if best_move == last_move && abs_eval == last_turn {
                if consecutive_evals < 1000 {
                    consecutive_evals = consecutive_evals + 1;
                }
            } else {
                consecutive_evals = 0;
            }

            let mate_bound = neg(checkmate_score(MAX_DEPTH));
            if consecutive_evals > 8 && (abs_eval >= mate_bound || abs_eval <= neg(mate_bound)) {
                break;
            }

            last_move = best_move;
            last_turn = abs_eval;
            current_depth = current_depth + 1;
        }

        let legal_moves = generate_all(&self.board);
        proof {
            if exists|t: int| safe_king_step(start.board, t) {
                let t = choose|t: int| safe_king_step(start.board, t);
                assert(safe_king_step(self.board, t));
                assert(has_step(legal_moves@, crate::types::bitboard::sq_of(self.board.kings[self.board.current_color.spec_idx()].bitboard), t));
            }
        }
        if !contains_move(&legal_moves, best_move) {
            best_move = Move::new();
            if legal_moves.len() > 0 {
                best_move = legal_moves[0];
                assert(self.board.accepts(legal_moves@[0]));
            }
        } else {
            proof {
                let k = choose|k: int| 0 <= k < legal_moves@.len() && legal_moves@[k] == best_move;
                assert(self.board.accepts(legal_moves@[k]));
            }
        }
        proof {
            lemma_same_position_accepts(self.board, start.board, best_move);
        }

        if self.time_hit {
            let info = SearchInfo {
                depth: if self.depth > 0 {
                    self.depth - 1
                } else {
                    0
                },
                seldepth: self.seldepth,
                score: abs_eval,
                nodes: self.nodes,
                millis: millis_since(&self.start_time),
                hashfull: self.transpositions.usage(),
                tbhits: self.tbhits,
                pv: clone_moves(&pv),
                nodes_n: self.nodes_n,
                nodes_z: self.nodes_z,
                nodes_q: self.nodes_q,
                delta_prunes: self.delta_prunes,
                aspiration_fail: false,
                razoring_attempts: self.razoring_attempts,
                razoring_success: self.razoring_success,
            };
            self.infos.push(info);
        }

        self.last_eval = neg(eval);
        best_move
    }
}

/// A copy of a list of moves.
fn clone_moves(moves: &Vec<Move>) -> (r: Vec<Move>)
    ensures
        r@ == moves@,
{
    let mut result: Vec<Move> = Vec::new();
    let mut i: usize = 0;
    while i < moves.len()
        invariant
            i <= moves@.len(),
            result@ == moves@.subrange(0, i as int),
        decreases moves@.len() - i,
    {
        result.push(moves[i]);
        i = i + 1;
    }
    assert(moves@.subrange(0, moves@.len() as int) =~= moves@);
    result
}

} // verus!
