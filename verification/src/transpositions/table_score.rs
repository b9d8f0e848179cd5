use vstd::prelude::*;
use crate::search::Score;

verus! {

/// What the table knows of the score of a position: nothing, the exact
/// score, a lower bound or an upper bound.
#[derive(Copy, Clone, PartialEq, Eq, Structural, Debug)]
pub enum TableScore {
    Unknown,
    Exact(Score),
    AtLeast(Score),
    AtMost(Score),
}

impl TableScore {
    /// The score found by a search that raised alpha to `alpha`: exact when
    /// a move beat the old alpha, else an upper bound.
    pub fn from_alpha(alpha: Score, is_exact: bool) -> (r: Self)
        ensures
            r == (if is_exact {
                TableScore::Exact(alpha)
            } else {
                TableScore::AtMost(alpha)
            }),
    {
        if is_exact {
            TableScore::Exact(alpha)
        } else {
            TableScore::AtMost(alpha)
        }
    }
}

} // verus!
