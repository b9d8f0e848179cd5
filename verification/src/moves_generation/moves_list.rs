use vstd::prelude::*;
use crate::types::Move;

verus! {

/// Moves with their ordering weights, handed out best first.
pub struct MoveList {
    pub moves: Vec<Move>,
    pub weights: Vec<i64>,
}

/// The index the selection picks among `used..end`: the first one whose
/// weight beats every earlier one and the least weight, and 0 when none
/// does.
pub open spec fn pick(weights: Seq<i64>, used: int, end: int) -> (i64, int)
    decreases end - used,
{
    if end <= used {
        (i64::MIN, 0)
    } else {
        let (best, idx) = pick(weights, used, end - 1);
        if weights[end - 1] > best {
            (weights[end - 1], end - 1)
        } else {
            (best, idx)
        }
    }
}

/// The picked index lies within the list.
pub proof fn lemma_pick_in_range(weights: Seq<i64>, used: int, end: int)
    requires
        0 <= used < end,
    ensures
        0 <= pick(weights, used, end).1 < end,
    decreases end - used,
{
    let p = pick(weights, used, end - 1);
    if end - 1 > used {
        lemma_pick_in_range(weights, used, end - 1);
    } else {
        assert(p == (i64::MIN, 0int));
    }
    assert(pick(weights, used, end) == (if weights[end - 1] > p.0 {
        (weights[end - 1], end - 1)
    } else {
        p
    }));
}

impl MoveList {
    pub fn new(moves: Vec<Move>, weights: Vec<i64>) -> (r: Self)
        requires
            moves@.len() == weights@.len(),
        ensures
            r.moves@ == moves@,
            r.weights@ == weights@,
    {
        Self { moves, weights }
    }

    pub fn is_empty(&self) -> (r: bool)
        ensures
            r == (self.moves@.len() == 0),
    {
        self.moves.len() == 0
    }

    /// Hands the moves out one by one.
    pub fn into_iter(self) -> (r: MoveListIterator)
        requires
            self.moves@.len() == self.weights@.len(),
        ensures
            r.list.moves@ == self.moves@,
            r.list.weights@ == self.weights@,
            r.used == 0,
            r.wf(),
    {
        MoveListIterator { list: self, used: 0 }
    }
}

/// Hands out the moves of a list, best weight first, by selection.
pub struct MoveListIterator {
    pub list: MoveList,
    pub used: usize,
}

impl MoveListIterator {
    pub open spec fn wf(self) -> bool {
        &&& self.list.moves@.len() == self.list.weights@.len()
        &&& self.used <= self.list.moves@.len()
    }

    /// The next move: the first of the remaining moves with the greatest
    /// weight, swapped to the front of the remaining ones.
    pub fn next(&mut self) -> (r: Option<Move>)
        requires
            old(self).wf(),
        ensures
            final(self).wf(),
            old(self).used >= old(self).list.moves@.len() ==> {
                &&& r is None
                &&& final(self).used == old(self).used
                &&& final(self).list.moves@ == old(self).list.moves@
                &&& final(self).list.weights@ == old(self).list.weights@
            },
            old(self).used < old(self).list.moves@.len() ==> {
                let u = old(self).used as int;
                let k = pick(old(self).list.weights@, u, old(self).list.moves@.len() as int).1;
                let mv = old(self).list.moves@;
                let w = old(self).list.weights@;
                &&& r == Some(mv[k])
                &&& final(self).used == u + 1
                &&& final(self).list.moves@ == mv.update(u, mv[k]).update(k, mv[u])
                &&& final(self).list.weights@ == w.update(u, w[k]).update(k, w[u])
            },
    {
        let len = self.list.moves.len();
        if self.used >= len {
            return None;
        }
        let mut max_value = i64::MIN;
        let mut max_idx: usize = 0;
        let mut i = self.used;
        while i < len
            invariant
                self.used <= i <= len,
                len == self.list.moves@.len(),
                self.list.moves@.len() == self.list.weights@.len(),
                self.used == old(self).used,
                self.list.moves@ == old(self).list.moves@,
                self.list.weights@ == old(self).list.weights@,
                (max_value, max_idx as int) == pick(self.list.weights@, self.used as int, i as int),
                max_idx < len,
            decreases len - i,
        {
            let weight = self.list.weights[i];
            if weight > max_value {
                max_idx = i;
                max_value = weight;
            }
            i = i + 1;
        }
        let best_move = self.list.moves[max_idx];
        let used = self.used;
        let w_used = self.list.weights[used];
        let w_max = self.list.weights[max_idx];
        self.list.weights.set(used, w_max);
        self.list.weights.set(max_idx, w_used);
        let m_used = self.list.moves[used];
        self.list.moves.set(used, best_move);
        self.list.moves.set(max_idx, m_used);
        self.used = self.used + 1;
        Some(best_move)
    }
}

} // verus!
