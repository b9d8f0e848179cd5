use vstd::prelude::*;
use crate::search::eval::{Score, trunc_div};
use crate::types::Side;

verus! {

/// A score as the interface reports it.
#[derive(Clone, Copy, PartialEq, Eq, Structural, Debug)]
pub enum ScoreReport {
    /// Mate in this many moves, negative when the side to move is mated.
    Mate(i32),
    /// Centipawns from the side to move's point of view.
    Centipawns(i32),
}

/// The report of `score`, which is white's point of view when `side` is
/// to move: scores beyond 9000 in size are mates, counted in moves from
/// the distance in plies to 10000, the quotient rounded toward zero; others are centipawns, turned to the
/// side to move.
pub open spec fn spec_report(score: Score, side: Side) -> ScoreReport {
    let a = if score < 0 {
        -score
    } else {
        score as int
    };
    let sign = if score > 0 {
        1int
    } else if score < 0 {
        -1int
    } else {
        0int
    };
    if a > 9000 {
        ScoreReport::Mate(trunc_div(sign * (1 + (10000 - a)), 2) as i32)
    } else {
        ScoreReport::Centipawns((if side == Side::White {
            score as int
        } else {
            -score
        }) as i32)
    }
}

/// Reports `score` with `side` to move.
pub fn report_score(score: Score, side: Side) -> (r: ScoreReport)
    ensures
        r == spec_report(score, side),
{
    let s = score as i32;
    let a = if s < 0 {
        -s
    } else {
        s
    };
    if a > 9000 {
        let sign: i32 = if s > 0 {
            1
        } else {
            -1
        };
        let n = sign * (1 + (10000 - a));
        let q = n / 2;
        ScoreReport::Mate(q)
    } else {
        ScoreReport::Centipawns(
            match side {
                Side::White => s,
                Side::Black => -s,
            },
        )
    }
}

/// The nodes searched per second in `millis` milliseconds, the time
/// counted as at least one millisecond.
pub fn nodes_per_second(nodes: u64, millis: u128) -> (r: u128)
    ensures
        r == nodes as int * 1000 / (if millis == 0 {
            1
        } else {
            millis as int
        }),
{
    let time = if millis == 0 {
        1
    } else {
        millis
    };
    assert(nodes as int * 1000 <= u128::MAX) by (nonlinear_arith)
        requires
            nodes <= u64::MAX,
    ;
    (nodes as u128) * 1000 / time
}

} // verus!
