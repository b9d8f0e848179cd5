use vstd::prelude::*;
use crate::board::Board;
use crate::board::make::{lemma_can_unmake_after_make, lemma_unmake_after_make, lemma_same_position_unmake};
use crate::moves_generation::generation::generate_all;
use crate::types::Move;

verus! {

/// The clocks of the board can count `depth` more moves.
pub open spec fn clocks_allow(board: Board, depth: int) -> bool {
    &&& board.half_moves_clock + depth <= u32::MAX
    &&& board.full_moves_count + depth <= u32::MAX
}

/// Counts the move sequences of length `depth` from the position: every
/// legal move is made, the sequences after it are counted, and the move
/// is taken back. A position that the generator cannot read (after a move
/// that takes a king) has no continuation to count. The board is left as
/// it was.
pub fn perft(board: &mut Board, depth: usize) -> (nodes: u64)
    requires
        depth > 0 ==> old(board).playable(),
        clocks_allow(*old(board), depth as int),
    ensures
        final(board).same_position(*old(board)),
        depth == 0 ==> nodes == 1,
    decreases depth,
{
    if depth == 0 {
        return 1;
    }
    let ghost b0 = *board;
    let mut nodes: u64 = 0;
    let moves = generate_all(board);
    let mut i: usize = 0;
    while i < moves.len()
        invariant
            depth > 0,
            b0.playable(),
            clocks_allow(b0, depth as int),
            board.same_position(b0),
            b0.all_accepted(moves@),
            i <= moves@.len(),
        decreases moves@.len() - i,
    {
        let m = moves[i];
        assert(b0.accepts(moves@[i as int]));
        let ghost before = *board;
        proof {
            crate::board::make::lemma_wf_keep(b0, before);
        }
        board.make_move(m);
        let ghost b1 = *board;
        proof {
            lemma_can_unmake_after_make(before, m, b1);
        }
        if depth == 1 || board.is_playable() {
            let count = perft(board, depth - 1);
            nodes = nodes.saturating_add(count);
        }
        let ghost b1_after = *board;
        proof {
            lemma_same_position_unmake(b1, b1_after);
        }
        board.unmake_move();
        proof {
            assert(b1_after.unmakes(*board));
            lemma_unmake_after_make(before, m, b1, *board);
        }
        i = i + 1;
    }
    nodes
}

/// The count of `perft` split by the first move: each legal move with the
/// number of sequences of length `depth` that start with it.
pub fn perft_divide(board: &mut Board, depth: usize) -> (r: Vec<(Move, u64)>)
    requires
        depth > 0,
        old(board).playable(),
        clocks_allow(*old(board), depth as int),
    ensures
        final(board).same_position(*old(board)),
{
    let ghost b0 = *board;
    let mut result: Vec<(Move, u64)> = Vec::new();
    let moves = generate_all(board);
    let mut i: usize = 0;
    while i < moves.len()
        invariant
            depth > 0,
            b0.playable(),
            clocks_allow(b0, depth as int),
            board.same_position(b0),
            b0.all_accepted(moves@),
            i <= moves@.len(),
        decreases moves@.len() - i,
    {
        let m = moves[i];
        assert(b0.accepts(moves@[i as int]));
        let ghost before = *board;
        proof {
            crate::board::make::lemma_wf_keep(b0, before);
        }
        board.make_move(m);
        let ghost b1 = *board;
        proof {
            lemma_can_unmake_after_make(before, m, b1);
        }
        let mut count: u64 = 0;
        if depth == 1 || board.is_playable() {
            count = perft(board, depth - 1);
        }
        result.push((m, count));
        let ghost b1_after = *board;
        proof {
            lemma_same_position_unmake(b1, b1_after);
        }
        board.unmake_move();
        proof {
            assert(b1_after.unmakes(*board));
            lemma_unmake_after_make(before, m, b1, *board);
        }
        i = i + 1;
    }
    result
}

} // verus!
