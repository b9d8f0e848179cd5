use vstd::prelude::*;
use vstd::std_specs::bits::{u64_trailing_zeros, axiom_u64_trailing_zeros};
use crate::types::square::Square;

verus! {

/// Whether bit `i` (square `i`) is set in the 64-bit mask `b`.
pub open spec fn bit(b: u64, i: int) -> bool {
    (b >> (i as u64)) & 1u64 == 1u64
}

/// The mask holding square `i` alone.
pub open spec fn single(i: int) -> u64 {
    1u64 << (i as u64)
}

/// Number of set bits of `b`.
pub open spec fn popcount(b: u64) -> nat
    decreases b,
{
    if b == 0 {
        0
    } else {
        (b % 2) as nat + popcount(b / 2)
    }
}

pub broadcast proof fn lemma_bit_and(a: u64, b: u64, i: int)
    requires
        0 <= i < 64,
    ensures
        #[trigger] bit(a & b, i) == (bit(a, i) && bit(b, i)),
{
    let j = i as u64;
    assert((((a & b) >> j) & 1u64 == 1u64) == (((a >> j) & 1u64 == 1u64) && ((b >> j) & 1u64
        == 1u64))) by (bit_vector);
}

pub broadcast proof fn lemma_bit_or(a: u64, b: u64, i: int)
    requires
        0 <= i < 64,
    ensures
        #[trigger] bit(a | b, i) == (bit(a, i) || bit(b, i)),
{
    let j = i as u64;
    assert((((a | b) >> j) & 1u64 == 1u64) == (((a >> j) & 1u64 == 1u64) || ((b >> j) & 1u64
        == 1u64))) by (bit_vector);
}

pub broadcast proof fn lemma_bit_xor(a: u64, b: u64, i: int)
    requires
        0 <= i < 64,
    ensures
        #[trigger] bit(a ^ b, i) == (bit(a, i) != bit(b, i)),
{
    let j = i as u64;
    assert((((a ^ b) >> j) & 1u64 == 1u64) == (((a >> j) & 1u64 == 1u64) != ((b >> j) & 1u64
        == 1u64))) by (bit_vector);
}

pub broadcast proof fn lemma_bit_not(a: u64, i: int)
    requires
        0 <= i < 64,
    ensures
        #[trigger] bit(!a, i) == !bit(a, i),
{
    let j = i as u64;
    assert((((!a) >> j) & 1u64 == 1u64) == !((a >> j) & 1u64 == 1u64)) by (bit_vector)
        requires
            j < 64,
    ;
}

pub broadcast proof fn lemma_bit_zero(i: int)
    requires
        0 <= i < 64,
    ensures
        !#[trigger] bit(0u64, i),
{
    let j = i as u64;
    assert(!((0u64 >> j) & 1u64 == 1u64)) by (bit_vector);
}

pub broadcast proof fn lemma_bit_full(i: int)
    requires
        0 <= i < 64,
    ensures
        #[trigger] bit(0xffff_ffff_ffff_ffffu64, i),
{
    let j = i as u64;
    assert((0xffff_ffff_ffff_ffffu64 >> j) & 1u64 == 1u64) by (bit_vector)
        requires
            j < 64,
    ;
}

pub broadcast proof fn lemma_bit_single(s: int, i: int)
    requires
        0 <= i < 64,
        0 <= s < 64,
    ensures
        #[trigger] bit(single(s), i) == (i == s),
{
    let j = i as u64;
    let t = s as u64;
    assert((((1u64 << t) >> j) & 1u64 == 1u64) == (j == t)) by (bit_vector)
        requires
            j < 64,
            t < 64,
    ;
}

/// Shifting left by `k` moves square `i - k` to square `i`.
pub broadcast proof fn lemma_bit_shl(a: u64, k: u64, i: int)
    requires
        0 <= i < 64,
        k < 64,
    ensures
        #[trigger] bit(a << k, i) == (i >= k && bit(a, i - k)),
{
    let j = i as u64;
    if j >= k {
        let d = (j - k) as u64;
        assert((((a << k) >> j) & 1u64 == 1u64) == (((a >> d) & 1u64) == 1u64)) by (bit_vector)
            requires
                j < 64,
                k < 64,
                j >= k,
                d == j - k,
        ;
    } else {
        assert(!(((a << k) >> j) & 1u64 == 1u64)) by (bit_vector)
            requires
                j < k,
                k < 64,
        ;
    }
}

/// Shifting right by `k` moves square `i + k` to square `i`.
pub broadcast proof fn lemma_bit_shr(a: u64, k: u64, i: int)
    requires
        0 <= i < 64,
        k < 64,
    ensures
        #[trigger] bit(a >> k, i) == (i + k < 64 && bit(a, i + k)),
{
    let j = i as u64;
    if j + k < 64 {
        let d = (j + k) as u64;
        assert((((a >> k) >> j) & 1u64 == 1u64) == (((a >> d) & 1u64) == 1u64)) by (bit_vector)
            requires
                j < 64,
                k < 64,
                d == j + k,
        ;
    } else {
        assert(!(((a >> k) >> j) & 1u64 == 1u64)) by (bit_vector)
            requires
                j < 64,
                k < 64,
                j + k >= 64,
        ;
    }
}

pub broadcast group group_bits {
    lemma_bit_and,
    lemma_bit_or,
    lemma_bit_xor,
    lemma_bit_not,
    lemma_bit_zero,
    lemma_bit_full,
    lemma_bit_single,
    lemma_bit_shl,
    lemma_bit_shr,
}

/// Two masks with the same squares are equal.
pub proof fn lemma_bits_ext(a: u64, b: u64)
    requires
        forall|i: int| 0 <= i < 64 ==> bit(a, i) == bit(b, i),
    ensures
        a == b,
{
    let x = a ^ b;
    if x != 0 {
        axiom_u64_trailing_zeros(x);
        let t = u64_trailing_zeros(x) as u64;
        assert(bit(a, t as int) == bit(b, t as int));
        assert(((a ^ b) >> t) & 1u64 == 1u64 ==> ((a >> t) & 1u64 == 1u64) != ((b >> t) & 1u64
            == 1u64)) by (bit_vector);
        assert(false);
    }
    assert(a ^ b == 0 ==> a == b) by (bit_vector);
}

/// A mask with no squares is zero.
pub proof fn lemma_bits_empty(a: u64)
    requires
        forall|i: int| 0 <= i < 64 ==> !bit(a, i),
    ensures
        a == 0,
{
    broadcast use group_bits;

    lemma_bits_ext(a, 0);
}

/// The lowest set square of a nonzero mask.
pub proof fn lemma_lowest(a: u64)
    requires
        a != 0,
    ensures
        u64_trailing_zeros(a) < 64,
        bit(a, u64_trailing_zeros(a) as int),
        forall|i: int| 0 <= i < u64_trailing_zeros(a) ==> !bit(a, i),
{
    axiom_u64_trailing_zeros(a);
    let t = u64_trailing_zeros(a);
    assert forall|i: int| 0 <= i < t implies !bit(a, i) by {
        let j = i as u64;
        assert((a >> j) & 1u64 == 0u64);
    }
}

/// Clearing the lowest set square with `a & (a - 1)`.
pub proof fn lemma_clear_lowest(a: u64)
    requires
        a != 0,
    ensures
        forall|i: int|
            0 <= i < 64 ==> #[trigger] bit(a & (a - 1) as u64, i) == (bit(a, i) && i != u64_trailing_zeros(
                a,
            )),
{
    lemma_lowest(a);
    axiom_u64_trailing_zeros(a);
    let t = u64_trailing_zeros(a) as u64;
    assert forall|i: int| 0 <= i < 64 implies #[trigger] bit(a & (a - 1) as u64, i) == (bit(a, i) && i
        != t) by {
        let j = i as u64;
        assert((((a & (a - 1) as u64) >> j) & 1u64 == 1u64) == (((a >> j) & 1u64 == 1u64) && j != t))
            by (bit_vector)
            requires
                a != 0,
                t < 64,
                j < 64,
                (a >> t) & 1u64 == 1u64,
                a << ((64 - t) as u64) == 0,
        ;
    }
}

/// A set of squares packed in a 64-bit mask (bit `i` is square `i`).
#[derive(Copy, Clone, PartialEq, Eq, Structural, Debug)]
pub struct Bitboard {
    pub bitboard: u64,
}

impl Bitboard {
    /// Whether the square `i` belongs to the set.
    pub open spec fn has(self, i: int) -> bool {
        bit(self.bitboard, i)
    }

    pub fn new() -> (r: Self)
        ensures
            r.bitboard == 0,
    {
        Bitboard { bitboard: 0 }
    }

    pub fn from_coords(file: usize, rank: usize) -> (r: Self)
        requires
            file < 8,
            rank < 8,
        ensures
            r.bitboard == single(rank * 8 + file),
    {
        Self::from_square(Square::from_coords(file, rank))
    }

    pub fn from_square(square: Square) -> (r: Self)
        requires
            square.valid(),
        ensures
            r.bitboard == single(square.idx as int),
    {
        Bitboard { bitboard: 1u64 << (square.idx as u64) }
    }

    pub fn from_u64(bitboard: u64) -> (r: Self)
        ensures
            r.bitboard == bitboard,
    {
        Bitboard { bitboard }
    }

    pub fn empty(&self) -> (r: bool)
        ensures
            r == (self.bitboard == 0),
    {
        self.bitboard == 0
    }

    pub fn not_empty(&self) -> (r: bool)
        ensures
            r == (self.bitboard != 0),
    {
        !self.empty()
    }

    /// The lowest square of a nonempty set.
    pub fn peek(&self) -> (r: Square)
        requires
            self.bitboard != 0,
        ensures
            r.valid(),
            r.idx == u64_trailing_zeros(self.bitboard),
            self.has(r.idx as int),
            forall|i: int| 0 <= i < r.idx ==> !self.has(i),
    {
        proof {
            lemma_lowest(self.bitboard);
        }
        Square { idx: self.bitboard.trailing_zeros() as usize }
    }

    /// Removes the lowest square of a nonempty set and returns it.
    pub fn pop(&mut self) -> (r: Square)
        requires
            old(self).bitboard != 0,
        ensures
            r.valid(),
            r.idx == u64_trailing_zeros(old(self).bitboard),
            old(self).has(r.idx as int),
            forall|i: int| 0 <= i < r.idx ==> !old(self).has(i),
            final(self).bitboard == old(self).bitboard & (old(self).bitboard - 1) as u64,
            final(self).bitboard < old(self).bitboard,
            forall|i: int|
                0 <= i < 64 ==> #[trigger] final(self).has(i) == (old(self).has(i) && i != r.idx),
    {
        let result = self.peek();
        proof {
            lemma_clear_lowest(self.bitboard);
            let a = self.bitboard;
            assert(a != 0 ==> a & ((a - 1) as u64) < a) by (bit_vector);
        }
        self.bitboard = self.bitboard & (self.bitboard - 1);
        result
    }

    /// Number of squares in the set.
    pub fn pieces(&self) -> (r: u32)
        ensures
            r == popcount(self.bitboard),
    {
        count_ones(self.bitboard)
    }

    pub fn and(self, other: Bitboard) -> (r: Bitboard)
        ensures
            r.bitboard == self.bitboard & other.bitboard,
    {
        Bitboard { bitboard: self.bitboard & other.bitboard }
    }

    pub fn or(self, other: Bitboard) -> (r: Bitboard)
        ensures
            r.bitboard == self.bitboard | other.bitboard,
    {
        Bitboard { bitboard: self.bitboard | other.bitboard }
    }

    pub fn xor(self, other: Bitboard) -> (r: Bitboard)
        ensures
            r.bitboard == self.bitboard ^ other.bitboard,
    {
        Bitboard { bitboard: self.bitboard ^ other.bitboard }
    }

    pub fn not(self) -> (r: Bitboard)
        ensures
            r.bitboard == !self.bitboard,
    {
        Bitboard { bitboard: !self.bitboard }
    }

    pub fn shl(self, k: u64) -> (r: Bitboard)
        requires
            k < 64,
        ensures
            r.bitboard == self.bitboard << k,
    {
        Bitboard { bitboard: self.bitboard << k }
    }

    pub fn shr(self, k: u64) -> (r: Bitboard)
        requires
            k < 64,
        ensures
            r.bitboard == self.bitboard >> k,
    {
        Bitboard { bitboard: self.bitboard >> k }
    }
}

/// The number of ones in the binary representation of `x`, counted one
/// bit at a time from the lowest.
fn count_ones(x: u64) -> (r: u32)
    ensures
        r == popcount(x),
{
    let mut y = x;
    let mut c: u32 = 0;
    let mut i: u64 = 0;
    while y != 0
        invariant
            c + popcount(y) == popcount(x),
            c <= i,
            i <= 64,
            i > 0 ==> y <= 0xffff_ffff_ffff_ffffu64 >> i,
        decreases y,
    {
        assert(i < 64 && y / 2 <= 0xffff_ffff_ffff_ffffu64 >> ((i + 1) as u64)) by (bit_vector)
            requires
                y != 0,
                i <= 64,
                i > 0 ==> y <= 0xffff_ffff_ffff_ffffu64 >> i,
        ;
        c = c + (y % 2) as u32;
        y = y / 2;
        i = i + 1;
    }
    c
}

/// Adding square `s` to a mask.
pub proof fn lemma_bit_or_single(a: u64, s: int)
    requires
        0 <= s < 64,
    ensures
        forall|t: int|
            0 <= t < 64 ==> #[trigger] bit(a | single(s), t) == (bit(a, t) || t == s),
{
    assert forall|t: int| 0 <= t < 64 implies #[trigger] bit(a | single(s), t) == (bit(a, t) || t
        == s) by {
        lemma_bit_or(a, single(s), t);
        lemma_bit_single(s, t);
    }
}

/// The zero mask holds no square.
pub proof fn lemma_bits_empty_forall()
    ensures
        forall|t: int| 0 <= t < 64 ==> !#[trigger] bit(0u64, t),
{
    assert forall|t: int| 0 <= t < 64 implies !#[trigger] bit(0u64, t) by {
        lemma_bit_zero(t);
    }
}

/// The mask holds exactly one square.
pub open spec fn one_square(b: u64) -> bool {
    b != 0 && b == single(u64_trailing_zeros(b) as int)
}

/// The square of a one-square mask.
pub open spec fn sq_of(b: u64) -> int {
    u64_trailing_zeros(b) as int
}

/// A single-square mask names its square.
pub proof fn lemma_single(s: int)
    requires
        0 <= s < 64,
    ensures
        one_square(single(s)),
        sq_of(single(s)) == s,
        u64_trailing_zeros(single(s)) == s,
        single(s) != 0,
{
    let x = single(s);
    let su = s as u64;
    assert(1u64 << su != 0) by (bit_vector)
        requires
            su < 64,
    ;
    lemma_lowest(x);
    let t = u64_trailing_zeros(x) as int;
    lemma_bit_single(s, t);
    lemma_bit_single(s, s);
}


/// A mask meets the single square `s` exactly when it holds `s`.
pub proof fn lemma_and_single(a: u64, s: int)
    requires
        0 <= s < 64,
    ensures
        ((a & single(s)) != 0) == bit(a, s),
        ((single(s) & a) != 0) == bit(a, s),
{
    let t = s as u64;
    assert(((a & (1u64 << t)) != 0) == (((a >> t) & 1u64) == 1u64)) by (bit_vector)
        requires
            t < 64,
    ;
    assert(((1u64 << t) & a) == (a & (1u64 << t))) by (bit_vector);
}

/// Shifting a single square moves it by the shift.
pub proof fn lemma_single_shift(s: int, k: int)
    requires
        0 <= s < 64,
        0 <= k < 64,
    ensures
        s + k < 64 ==> single(s) << (k as u64) == single(s + k),
        s >= k ==> single(s) >> (k as u64) == single(s - k),
{
    let t = s as u64;
    let u = k as u64;
    if s + k < 64 {
        assert((1u64 << t) << u == 1u64 << ((t + u) as u64)) by (bit_vector)
            requires
                t + u < 64,
        ;
    }
    if s >= k {
        assert((1u64 << t) >> u == 1u64 << ((t - u) as u64)) by (bit_vector)
            requires
                u <= t < 64,
        ;
    }
}

/// Single-square masks of different squares differ.
pub proof fn lemma_single_injective(a: int, b: int)
    requires
        0 <= a < 64,
        0 <= b < 64,
    ensures
        (single(a) == single(b)) == (a == b),
{
    lemma_single(a);
    lemma_single(b);
}

} // verus!
