use vstd::prelude::*;
use crate::search::Score;
use crate::transpositions::table_score::TableScore;
use crate::types::Move;

verus! {

/// One slot of the table: the full hash of the position it holds, the
/// depth it was searched to, what is known of its score and its best move.
#[derive(Clone, Copy)]
pub struct Entry {
    pub hash: u64,
    pub depth: i16,
    pub score: TableScore,
    pub m: Move,
}

impl Entry {
    /// An empty slot.
    pub open spec fn empty() -> Entry {
        Entry { hash: 0, depth: 0, score: TableScore::Unknown, m: Move { m: 0 } }
    }

    pub fn new() -> (r: Self)
        ensures
            r == Entry::empty(),
    {
        Self { hash: 0, depth: 0, score: TableScore::Unknown, m: Move::new() }
    }
}

/// `std::mem::size_of::<Entry>()`: the size in bytes of a slot, at least
/// the eight bytes of its hash.
#[verifier::external_body]
fn entry_size() -> (r: usize)
    ensures
        r >= 8,
{
    std::mem::size_of::<Entry>()
}

/// The number of slots that hold a score, among the first `n`.
pub open spec fn used(scores: Seq<Entry>, n: int) -> nat
    decreases n,
{
    if n <= 0 {
        0
    } else {
        used(scores, n - 1) + (if scores[n - 1].score is Unknown {
            0nat
        } else {
            1nat
        })
    }
}

/// A table of positions by hash, one slot per hash modulo its length.
pub struct Transpositions {
    pub length: usize,
    pub scores: Vec<Entry>,
}

/// Whether a new entry for `hash` at `depth` with `score` replaces the
/// slot `old`: for the same position, a deeper or equal search with an
/// exact score, or a bound that beats the old bound of the same kind; for
/// another position, a known score from a search at least as deep (deeper
/// than an exact score).
pub open spec fn replaces(old: Entry, hash: u64, depth: i16, score: TableScore) -> bool {
    if old.hash == hash {
        old.depth <= depth && match score {
            TableScore::Unknown => false,
            TableScore::Exact(_) => true,
            TableScore::AtLeast(s) => match old.score {
                TableScore::Exact(_) => false,
                TableScore::AtLeast(o) => s > o,
                _ => true,
            },
            TableScore::AtMost(s) => match old.score {
                TableScore::Exact(_) => false,
                TableScore::AtMost(o) => s < o,
                _ => true,
            },
        }
    } else {
        !(score is Unknown) && match old.score {
            TableScore::Exact(_) => old.depth < depth,
            _ => old.depth <= depth,
        }
    }
}

/// The score that slot `e` gives for `hash` searched to `depth` within the
/// window `alpha`..`beta`: an exact score, or a bound that falls outside
/// the window, from a search at least as deep.
pub open spec fn entry_score(e: Entry, hash: u64, depth: i16, alpha: Score, beta: Score) -> Option<Score> {
    if e.hash != hash || e.depth < depth {
        None
    } else {
        match e.score {
            TableScore::Exact(s) => Some(s),
            TableScore::AtLeast(s) => if s >= beta {
                Some(s)
            } else {
                None
            },
            TableScore::AtMost(s) => if s <= alpha {
                Some(s)
            } else {
                None
            },
            TableScore::Unknown => None,
        }
    }
}

/// The move that slot `e` gives for `hash`.
pub open spec fn entry_move(e: Entry, hash: u64) -> Option<Move> {
    if e.hash == hash && !(e.score is Unknown) {
        Some(e.m)
    } else {
        None
    }
}

impl Transpositions {
    /// The slots have the length of the table, which is not zero.
    pub open spec fn wf(self) -> bool {
        self.length > 0 && self.scores@.len() == self.length
    }

    /// The slot of `hash`.
    pub open spec fn slot(self, hash: u64) -> int {
        (hash as usize) as int % (self.length as int)
    }

    /// The entry in the slot of `hash`.
    pub open spec fn entry(self, hash: u64) -> Entry {
        self.scores@[self.slot(hash)]
    }

    /// Every slot is empty.
    pub open spec fn is_empty_table(self) -> bool {
        forall|i: int| 0 <= i < self.scores@.len() ==> #[trigger] self.scores@[i] == Entry::empty()
    }

    /// A table of `desired_size` megabytes, with every slot empty.
    pub fn new(desired_size: usize) -> (r: Self)
        requires
            desired_size > 0,
            desired_size * 1048576 <= usize::MAX,
        ensures
            r.wf(),
            r.is_empty_table(),
    {
        let size = entry_size();
        let computed = desired_size * 1048576 / size;
        // A slot is far smaller than a megabyte, so this only guards the
        // arithmetic.
        let length = if computed == 0 {
            1
        } else {
            computed
        };
        let mut scores: Vec<Entry> = Vec::new();
        let mut i: usize = 0;
        while i < length
            invariant
                i <= length,
                scores@.len() == i,
                forall|k: int| 0 <= k < i ==> #[trigger] scores@[k] == Entry::empty(),
            decreases length - i,
        {
            scores.push(Entry::new());
            i = i + 1;
        }
        Self { length, scores }
    }

    /// Empties every slot.
    pub fn clear(&mut self)
        requires
            old(self).wf(),
        ensures
            final(self).wf(),
            final(self).length == old(self).length,
            final(self).is_empty_table(),
    {
        let mut i: usize = 0;
        while i < self.length
            invariant
                i <= self.length,
                self.length > 0,
                self.length == old(self).length,
                self.scores@.len() == self.length,
                forall|k: int| 0 <= k < i ==> #[trigger] self.scores@[k] == Entry::empty(),
            decreases self.length - i,
        {
            self.scores.set(i, Entry::new());
            i = i + 1;
        }
    }

    /// Per mille of the slots that hold a score.
    pub fn usage(&self) -> (r: usize)
        requires
            self.wf(),
        ensures
            r as int == (used(self.scores@, self.length as int) * 1000) as int / (self.length as int),
    {
        let mut elems: usize = 0;
        let mut i: usize = 0;
        while i < self.length
            invariant
                i <= self.length,
                self.wf(),
                elems == used(self.scores@, i as int),
                elems <= i,
            decreases self.length - i,
        {
            match self.scores[i].score {
                TableScore::Unknown => {},
                _ => {
                    elems = elems + 1;
                },
            }
            i = i + 1;
        }
        let wide: u128 = (elems as u128) * 1000 / (self.length as u128);
        assert(wide <= 1000) by (nonlinear_arith)
            requires
                elems <= self.length,
                self.length > 0,
                wide as int == ((elems as int) * 1000) / (self.length as int),
        {
            assert((elems as int) * 1000 <= (self.length as int) * 1000);
        }
        wide as usize
    }

    /// The slot of `hash`.
    fn idx(&self, hash: u64) -> (r: usize)
        requires
            self.wf(),
        ensures
            r == self.slot(hash),
            r < self.length,
    {
        (hash as usize) % self.length
    }

    /// The best move stored for the position of `hash`, if its slot holds
    /// that position with a score.
    pub fn get_move(&self, hash: u64) -> (r: Option<Move>)
        requires
            self.wf(),
        ensures
            r == entry_move(self.entry(hash), hash),
    {
        let entry = self.scores[self.idx(hash)];
        match entry.score {
            TableScore::Unknown => None,
            _ => if entry.hash == hash {
                Some(entry.m)
            } else {
                None
            },
        }
    }

    /// The score stored for the position of `hash` that settles a search to
    /// `depth` within the window `alpha`..`beta`.
    pub fn get(&self, hash: u64, depth: i16, alpha: Score, beta: Score) -> (r: Option<Score>)
        requires
            self.wf(),
        ensures
            r == entry_score(self.entry(hash), hash, depth, alpha, beta),
    {
        let entry = self.scores[self.idx(hash)];
        if entry.hash != hash {
            return None;
        }
        if entry.depth < depth {
            return None;
        }
        match entry.score {
            TableScore::Exact(score) => Some(score),
            TableScore::AtLeast(score) => if score >= beta {
                Some(score)
            } else {
                None
            },
            TableScore::AtMost(score) => if score <= alpha {
                Some(score)
            } else {
                None
            },
            TableScore::Unknown => None,
        }
    }

    /// Stores what a search of the position of `hash` to `depth` found, in
    /// place of the slot's entry when `replaces` says so.
    pub fn set(&mut self, hash: u64, depth: i16, score: TableScore, m: Move)
        requires
            old(self).wf(),
        ensures
            final(self).wf(),
            final(self).length == old(self).length,
            final(self).scores@ == (if replaces(old(self).entry(hash), hash, depth, score) {
                old(self).scores@.update(
                    old(self).slot(hash),
                    (Entry { hash: hash, depth: depth, score: score, m: m }),
                )
            } else {
                old(self).scores@
            }),
    {
        let idx = self.idx(hash);
        let old = self.scores[idx];
        let replace = if old.hash == hash {
            old.depth <= depth && match score {
                TableScore::Unknown => false,
                TableScore::Exact(_) => true,
                TableScore::AtLeast(s) => match old.score {
                    TableScore::Exact(_) => false,
                    TableScore::AtLeast(o) => s > o,
                    _ => true,
                },
                TableScore::AtMost(s) => match old.score {
                    TableScore::Exact(_) => false,
                    TableScore::AtMost(o) => s < o,
                    _ => true,
                },
            }
        } else {
            let known = match score {
                TableScore::Unknown => false,
                _ => true,
            };
            known && match old.score {
                TableScore::Exact(_) => old.depth < depth,
                _ => old.depth <= depth,
            }
        };
        if replace {
            self.scores.set(idx, Entry { hash, depth, score, m });
        }
    }
}

/// What a write stores, a read gives back: after `set` for `hash` replaces
/// the slot with an exact score `s` and move `m`, the table gives `m` as
/// the move of `hash`, and `s` for every search of `hash` to `depth` or
/// less, whatever the window.
pub proof fn lemma_get_after_set(
    t: Transpositions,
    t2: Transpositions,
    hash: u64,
    depth: i16,
    s: Score,
    m: Move,
    d: i16,
    alpha: Score,
    beta: Score,
)
    requires
        t.wf(),
        t2.length == t.length,
        t2.scores@ == t.scores@.update(
            t.slot(hash),
            (Entry { hash: hash, depth: depth, score: TableScore::Exact(s), m: m }),
        ),
        d <= depth,
    ensures
        t2.wf(),
        entry_move(t2.entry(hash), hash) == Some(m),
        entry_score(t2.entry(hash), hash, d, alpha, beta) == Some(s),
{
}

/// A write for one position leaves the answers for every position of
/// another slot as they were.
pub proof fn lemma_set_keeps_other_slots(t: Transpositions, t2: Transpositions, hash: u64, e: Entry, other: u64)
    requires
        t.wf(),
        t2.length == t.length,
        t2.scores@ == t.scores@.update(t.slot(hash), e),
        t.slot(other) != t.slot(hash),
    ensures
        t2.entry(other) == t.entry(other),
{
}

/// An empty table knows no move and no score.
pub proof fn lemma_empty_table_knows_nothing(t: Transpositions, hash: u64, d: i16, alpha: Score, beta: Score)
    requires
        t.wf(),
        t.is_empty_table(),
    ensures
        entry_move(t.entry(hash), hash) is None,
        entry_score(t.entry(hash), hash, d, alpha, beta) is None,
{
    assert(t.entry(hash) == Entry::empty());
}

} // verus!
