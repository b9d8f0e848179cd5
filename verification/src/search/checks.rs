use vstd::prelude::*;
use crate::board::Board;
use crate::types::bitboard::bit;
use crate::types::Side;

verus! {

/// Whether square `i` is a light square (a1 is dark).
pub open spec fn light_square(i: int) -> bool {
    i % 2 != (i / 8) % 2
}

/// Conditions on the material and the history of a position.
pub trait Checks {
    fn draw_conditions(&self) -> bool;

    fn bishop_pair(&self, side: Side) -> bool;

    fn insufficient_material(&self) -> bool;
}

impl Board {
    /// The side has a bishop on a light square and one on a dark square.
    pub open spec fn spec_bishop_pair(self, side: Side) -> bool {
        let b = self.bishops[side.spec_idx()].bitboard;
        &&& exists|i: int| 0 <= i < 64 && bit(b, i) && light_square(i)
        &&& exists|j: int| 0 <= j < 64 && bit(b, j) && !light_square(j)
    }

    /// Whether the side has bishops on squares of both colours.
    pub fn bishop_pair(&self, side: Side) -> (r: bool)
        ensures
            r == self.spec_bishop_pair(side),
    {
        let bishops = self.bishops[side.idx()];
        let mut rest = bishops;
        let mut light = false;
        let mut dark = false;
        while rest.not_empty()
            invariant
                bishops == self.bishops[side.spec_idx()],
                forall|i: int| 0 <= i < 64 ==> #[trigger] rest.has(i) ==> bishops.has(i),
                light == exists|i: int| 0 <= i < 64 && bishops.has(i) && !rest.has(i) && light_square(i),
                dark == exists|i: int| 0 <= i < 64 && bishops.has(i) && !rest.has(i) && !light_square(i),
                forall|i: int| 0 <= i < 64 && bishops.has(i) && !rest.has(i) ==> #[trigger] bit(bishops.bitboard, i),
            decreases rest.bitboard,
        {
            let ghost before = rest;
            let bishop = rest.pop();
            let ghost t = bishop.idx as int;
            assert(bishops.has(t));
            if bishop.is_white() {
                light = true;
            } else {
                dark = true;
            }
            proof {
                assert(light_square(t) == (t % 2 != t / 8 % 2));
                assert forall|i: int| 0 <= i < 64 && #[trigger] rest.has(i) implies bishops.has(i) by {
                    assert(rest.has(i) == (before.has(i) && i != t));
                }
                if light {
                    if light_square(t) {
                        assert(bishops.has(t) && !rest.has(t) && light_square(t));
                    } else {
                        let w = choose|i: int| 0 <= i < 64 && bishops.has(i) && !before.has(i) && light_square(i);
                        assert(!rest.has(w));
                    }
                }
                if dark {
                    if !light_square(t) {
                        assert(bishops.has(t) && !rest.has(t) && !light_square(t));
                    } else {
                        let w = choose|i: int| 0 <= i < 64 && bishops.has(i) && !before.has(i) && !light_square(i);
                        assert(!rest.has(w));
                    }
                }
                assert forall|i: int| 0 <= i < 64 && bishops.has(i) && !rest.has(i) && light_square(i)
                    implies light by {
                    assert(rest.has(i) == (before.has(i) && i != t));
                    if i != t {
                        assert(!before.has(i));
                    }
                }
                assert forall|i: int| 0 <= i < 64 && bishops.has(i) && !rest.has(i) && !light_square(i)
                    implies dark by {
                    assert(rest.has(i) == (before.has(i) && i != t));
                    if i != t {
                        assert(!before.has(i));
                    }
                }
            }
        }
        proof {
            crate::types::bitboard::lemma_bits_empty_forall();
            assert forall|i: int| 0 <= i < 64 implies !#[trigger] rest.has(i) by {
                crate::types::bitboard::lemma_bit_zero(i);
            }
        }
        light && dark
    }

    /// Material that cannot mate: this engine never declares it, so the
    /// answer is always no.
    pub fn insufficient_material(&self) -> (r: bool)
        ensures
            !r,
    {
        false
    }

    /// Whether the game is drawn by repetition or by the fifty-move rule.
    pub fn draw_conditions(&self) -> (r: bool)
        ensures
            r == ((exists|i: int|
                0 <= i < self.history@.len() && #[trigger] self.history@[i].hash == self.hash)
                || self.half_moves_clock >= 100),
    {
        self.repeated_position() || self.half_moves_clock >= 100 || self.insufficient_material()
    }
}

impl Checks for Board {
    fn draw_conditions(&self) -> bool {
        Board::draw_conditions(self)
    }

    fn bishop_pair(&self, side: Side) -> bool {
        Board::bishop_pair(self, side)
    }

    fn insufficient_material(&self) -> bool {
        Board::insufficient_material(self)
    }
}

} // verus!
