use vstd::prelude::*;
use crate::types::square::Square;
use crate::types::piece::Piece;
use crate::util;
use crate::util::{char_file, char_rank, square_name, starts_with_square, parsed_square};

verus! {

/// Piece a pawn turns into when it reaches the last rank.
#[derive(Copy, Clone, PartialEq, Eq, Structural, Debug)]
pub enum Promotion {
    Queen,
    Rook,
    Bishop,
    Knight,
}

impl Promotion {
    /// Two-bit code of the promotion inside a packed move.
    pub open spec fn code(self) -> u16 {
        match self {
            Promotion::Queen => 0,
            Promotion::Rook => 1,
            Promotion::Bishop => 2,
            Promotion::Knight => 3,
        }
    }

    pub open spec fn spec_from_code(code: u16) -> Promotion {
        if code == 0 {
            Promotion::Queen
        } else if code == 1 {
            Promotion::Rook
        } else if code == 2 {
            Promotion::Bishop
        } else {
            Promotion::Knight
        }
    }

    pub fn from_code(value: u16) -> (r: Promotion)
        requires
            value < 4,
        ensures
            r == Self::spec_from_code(value),
            r.code() == value,
    {
        match value {
            0 => Promotion::Queen,
            1 => Promotion::Rook,
            2 => Promotion::Bishop,
            _ => Promotion::Knight,
        }
    }

    fn to_code(&self) -> (r: u16)
        ensures
            r == self.code(),
    {
        match self {
            Promotion::Queen => 0,
            Promotion::Rook => 1,
            Promotion::Bishop => 2,
            Promotion::Knight => 3,
        }
    }

    /// Letter of the promotion in UCI notation.
    pub open spec fn letter(self) -> char {
        match self {
            Promotion::Queen => 'q',
            Promotion::Rook => 'r',
            Promotion::Bishop => 'b',
            Promotion::Knight => 'n',
        }
    }

    pub open spec fn spec_from_letter(c: char) -> Option<Promotion> {
        if c == 'q' {
            Some(Promotion::Queen)
        } else if c == 'r' {
            Some(Promotion::Rook)
        } else if c == 'b' {
            Some(Promotion::Bishop)
        } else if c == 'n' {
            Some(Promotion::Knight)
        } else {
            None
        }
    }

    pub open spec fn piece(self) -> Piece {
        match self {
            Promotion::Queen => Piece::Queen,
            Promotion::Rook => Piece::Rook,
            Promotion::Bishop => Piece::Bishop,
            Promotion::Knight => Piece::Knight,
        }
    }
}

impl Piece {
    /// The piece a promotion gives.
    pub fn from_promotion(value: Promotion) -> (r: Piece)
        ensures
            r == value.piece(),
    {
        match value {
            Promotion::Queen => Piece::Queen,
            Promotion::Rook => Piece::Rook,
            Promotion::Bishop => Piece::Bishop,
            Promotion::Knight => Piece::Knight,
        }
    }
}

pub const MASK_FROM: u16 = 0b111111;
pub const MASK_TO: u16 = 0b111111000000;
pub const MASK_PROMOTION: u16 = 0b11000000000000;
pub const MASK_HAS_PROMOTION: u16 = 0b100000000000000;

/// A move packed in 16 bits: source square in bits 0-5, target square in
/// bits 6-11, promotion code in bits 12-13 and a promotion flag in bit 14.
#[derive(Copy, Clone, PartialEq, Eq, Structural, PartialOrd, Ord, Debug)]
pub struct Move {
    pub m: u16,
}

impl Move {
    pub open spec fn from_sq(self) -> int {
        (self.m & MASK_FROM) as int
    }

    pub open spec fn to_sq(self) -> int {
        ((self.m & MASK_TO) >> 6u16) as int
    }

    pub open spec fn has_promotion(self) -> bool {
        self.m & MASK_HAS_PROMOTION != 0
    }

    pub open spec fn promotion(self) -> Promotion {
        Promotion::spec_from_code((self.m & MASK_PROMOTION) >> 12u16)
    }

    /// The packed value of a move from `from` to `to` without promotion.
    pub open spec fn packed(from: int, to: int) -> u16 {
        (from + 64 * to) as u16
    }

    /// The packed value of a promotion move.
    pub open spec fn packed_prom(from: int, to: int, p: Promotion) -> u16 {
        (from + 64 * to + 4096 * p.code() + 16384) as u16
    }

    /// The UCI text of the move.
    pub open spec fn uci(self) -> Seq<char> {
        if self.has_promotion() {
            square_name(self.from_sq()) + square_name(self.to_sq()) + seq![self.promotion().letter()]
        } else {
            square_name(self.from_sq()) + square_name(self.to_sq())
        }
    }

    /// Whether `s` is UCI text of a move: two square names and an optional
    /// promotion letter.
    pub open spec fn valid_uci(s: Seq<char>) -> bool {
        &&& (s.len() == 4 || s.len() == 5)
        &&& starts_with_square(s)
        &&& starts_with_square(s.subrange(2, s.len() as int))
        &&& s.len() == 5 ==> Promotion::spec_from_letter(s[4]) is Some
    }

    /// The move that UCI text `s` denotes.
    pub open spec fn parsed_uci(s: Seq<char>) -> Move {
        let from = parsed_square(s);
        let to = parsed_square(s.subrange(2, s.len() as int));
        if s.len() == 5 {
            Move { m: Self::packed_prom(from, to, Promotion::spec_from_letter(s[4])->0) }
        } else {
            Move { m: Self::packed(from, to) }
        }
    }

    /// The empty move (a1 to a1).
    pub open spec fn new_spec() -> Move {
        Move { m: 0 }
    }

    /// The empty move goes from a1 to a1.
    pub proof fn lemma_empty_move_squares()
        ensures
            Self::new_spec().from_sq() == 0,
            Self::new_spec().to_sq() == 0,
    {
        assert(0u16 & MASK_FROM == 0 && (0u16 & MASK_TO) >> 6u16 == 0) by (bit_vector);
    }

    /// The squares of a move lie on the board.
    pub proof fn lemma_move_squares(self)
        ensures
            0 <= self.from_sq() < 64,
            0 <= self.to_sq() < 64,
    {
        let w = self.m;
        assert(w & MASK_FROM < 64 && (w & MASK_TO) >> 6u16 < 64) by (bit_vector);
    }

    /// The empty move (a1 to a1).
    pub fn new() -> (r: Self)
        ensures
            r.m == 0,
    {
        Self { m: 0 }
    }

    pub fn from_str(from: &str, to: &str) -> (r: Self)
        requires
            starts_with_square(from@),
            starts_with_square(to@),
        ensures
            r.m == Self::packed(parsed_square(from@), parsed_square(to@)),
    {
        Self::from_idx(
            Square::from_index(util::str_to_idx(from)),
            Square::from_index(util::str_to_idx(to)),
        )
    }

    pub fn from_str_prom(from: &str, to: &str, promotion: Promotion) -> (r: Self)
        requires
            starts_with_square(from@),
            starts_with_square(to@),
        ensures
            r.m == Self::packed_prom(parsed_square(from@), parsed_square(to@), promotion),
    {
        let mut m = Self::from_str(from, to);
        m.set_promotion(promotion);
        proof {
            lemma_packed_prom(parsed_square(from@) as u16, parsed_square(to@) as u16, promotion);
        }
        m
    }

    /// The move that UCI text such as "e2e4" or "e7e8q" denotes, if it
    /// denotes one.
    pub fn try_from_uci(uci: &str) -> (r: Option<Self>)
        ensures
            match r {
                Some(m) => Self::valid_uci(uci@) && m == Self::parsed_uci(uci@),
                None => !Self::valid_uci(uci@),
            },
    {
        let chars = util::str_chars(uci);
        let n = chars.len();
        assert(chars@.subrange(0, n as int) =~= uci@);
        if is_uci_text(&chars, 0, n) {
            Some(Self::from_uci(uci))
        } else {
            None
        }
    }

    /// Parses UCI text such as "e2e4" or "e7e8q".
    pub fn from_uci(uci: &str) -> (r: Self)
        requires
            Self::valid_uci(uci@),
        ensures
            r == Self::parsed_uci(uci@),
    {
        let chars = util::str_chars(uci);
        let from = util::chars_to_idx(&chars, 0);
        let to = util::chars_to_idx(&chars, 2);
        assert(chars@.subrange(0, chars@.len() as int) =~= uci@);
        let mut m = Self::from_idx(Square::from_index(from), Square::from_index(to));
        if chars.len() == 5 {
            let p = match chars[4] {
                'q' => Promotion::Queen,
                'r' => Promotion::Rook,
                'b' => Promotion::Bishop,
                _ => Promotion::Knight,
            };
            m.set_promotion(p);
            proof {
                lemma_packed_prom(from as u16, to as u16, p);
            }
        }
        m
    }

    pub fn from_idx(from: Square, to: Square) -> (r: Self)
        requires
            from.valid(),
            to.valid(),
        ensures
            r.m == Self::packed(from.idx as int, to.idx as int),
            r.from_sq() == from.idx,
            r.to_sq() == to.idx,
            !r.has_promotion(),
    {
        let mut m = Self::new();
        m.set_from(from.idx);
        m.set_to(to.idx);
        let f = from.idx as u16;
        let t = to.idx as u16;
        assert((0u16 | (f & 63u16)) | ((t << 6u16) & 4032u16) == f + 64 * t) by (bit_vector)
            requires
                f < 64,
                t < 64,
        ;
        assert(((f + 64 * t) as u16 & 63u16) == f) by (bit_vector)
            requires
                f < 64,
                t < 64,
        ;
        assert((((f + 64 * t) as u16 & 4032u16) >> 6u16) == t) by (bit_vector)
            requires
                f < 64,
                t < 64,
        ;
        assert(((f + 64 * t) as u16 & 16384u16) == 0) by (bit_vector)
            requires
                f < 64,
                t < 64,
        ;
        m
    }

    pub fn from_mask(from: u64, to: u64) -> (r: Self)
        requires
            from != 0,
            to != 0,
        ensures
            r.m == Self::packed(
                vstd::std_specs::bits::u64_trailing_zeros(from) as int,
                vstd::std_specs::bits::u64_trailing_zeros(to) as int,
            ),
    {
        proof {
            vstd::std_specs::bits::axiom_u64_trailing_zeros(from);
            vstd::std_specs::bits::axiom_u64_trailing_zeros(to);
        }
        Self::from_idx(
            Square::from_index(from.trailing_zeros() as usize),
            Square::from_index(to.trailing_zeros() as usize),
        )
    }

    pub fn from_idx_prom(from: Square, to: Square, promotion: Promotion) -> (r: Self)
        requires
            from.valid(),
            to.valid(),
        ensures
            r.m == Self::packed_prom(from.idx as int, to.idx as int, promotion),
            r.from_sq() == from.idx,
            r.to_sq() == to.idx,
            r.has_promotion(),
            r.promotion() == promotion,
    {
        let mut m = Self::from_idx(from, to);
        m.set_promotion(promotion);
        proof {
            lemma_packed_prom(from.idx as u16, to.idx as u16, promotion);
        }
        m
    }

    /// Adds the source square bits (the field is expected to be clear).
    pub fn set_from(&mut self, from: usize)
        ensures
            final(self).m == old(self).m | ((from as u16) & MASK_FROM),
    {
        self.m = self.m | ((from as u16) & MASK_FROM);
    }

    /// Adds the target square bits (the field is expected to be clear).
    pub fn set_to(&mut self, to: usize)
        ensures
            final(self).m == old(self).m | (((to as u16) << 6u16) & MASK_TO),
    {
        self.m = self.m | (((to as u16) << 6u16) & MASK_TO);
    }

    /// Adds the promotion bits (the field is expected to be clear).
    pub fn set_promotion(&mut self, promotion: Promotion)
        ensures
            final(self).m == old(self).m | (((promotion.code() << 12u16) & MASK_PROMOTION)
                | MASK_HAS_PROMOTION),
    {
        self.m = self.m | (((promotion.to_code() << 12u16) & MASK_PROMOTION) | MASK_HAS_PROMOTION);
    }

    pub fn get_from(&self) -> (r: Square)
        ensures
            r.idx == self.from_sq(),
            r.valid(),
    {
        let w = self.m;
        let v = w & MASK_FROM;
        assert(w & 63u16 < 64) by (bit_vector);
        Square::from_index(v as usize)
    }

    pub fn get_to(&self) -> (r: Square)
        ensures
            r.idx == self.to_sq(),
            r.valid(),
    {
        let w = self.m;
        let v = (w & MASK_TO) >> 6u16;
        assert((w & 4032u16) >> 6u16 < 64) by (bit_vector);
        Square::from_index(v as usize)
    }

    pub fn has_promotion_flag(&self) -> (r: bool)
        ensures
            r == self.has_promotion(),
    {
        self.m & MASK_HAS_PROMOTION != 0
    }

    pub fn get_promotion(&self) -> (r: Promotion)
        ensures
            r == self.promotion(),
    {
        let w = self.m;
        let v = (w & MASK_PROMOTION) >> 12u16;
        assert((w & 12288u16) >> 12u16 < 4) by (bit_vector);
        Promotion::from_code(v)
    }

    /// UCI text of the move, such as "e2e4" or "e7e8q".
    pub fn to_uci(&self) -> (r: String)
        ensures
            r@ == self.uci(),
    {
        let mut result = util::idx_to_str(self.get_from().idx);
        let to = util::idx_to_str(self.get_to().idx);
        result.append(to.as_str());
        if self.has_promotion_flag() {
            let c = match self.get_promotion() {
                Promotion::Queen => 'q',
                Promotion::Rook => 'r',
                Promotion::Bishop => 'b',
                Promotion::Knight => 'n',
            };
            util::push_char(&mut result, c);
        }
        result
    }
}

/// Whether `s[lo..hi]` is UCI text of a move: two square names and an
/// optional promotion letter.
pub fn is_uci_text(s: &Vec<char>, lo: usize, hi: usize) -> (r: bool)
    requires
        lo <= hi <= s@.len(),
    ensures
        r == Move::valid_uci(s@.subrange(lo as int, hi as int)),
{
    let ghost t = s@.subrange(lo as int, hi as int);
    if hi - lo != 4 && hi - lo != 5 {
        return false;
    }
    assert(t[0] == s@[lo as int] && t[1] == s@[lo + 1] && t[2] == s@[lo + 2] && t[3] == s@[lo + 3]);
    assert(t.subrange(2, t.len() as int)[0] == t[2] && t.subrange(2, t.len() as int)[1] == t[3]);
    let squares = is_file(s[lo]) && is_rank(s[lo + 1]) && is_file(s[lo + 2]) && is_rank(s[lo + 3]);
    if !squares {
        return false;
    }
    if hi - lo == 5 {
        assert(t[4] == s@[lo + 4]);
        let c = s[lo + 4];
        c == 'q' || c == 'r' || c == 'b' || c == 'n'
    } else {
        true
    }
}

fn is_file(c: char) -> (r: bool)
    ensures
        r == char_file(c) is Some,
{
    c == 'a' || c == 'b' || c == 'c' || c == 'd' || c == 'e' || c == 'f' || c == 'g' || c == 'h'
}

fn is_rank(c: char) -> (r: bool)
    ensures
        r == char_rank(c) is Some,
{
    c == '1' || c == '2' || c == '3' || c == '4' || c == '5' || c == '6' || c == '7' || c == '8'
}

/// Adding promotion bits to a plain packed move gives the packed promotion
/// move, and its fields decode back.
pub proof fn lemma_packed_prom(f: u16, t: u16, p: Promotion)
    requires
        f < 64,
        t < 64,
    ensures
        (Move::packed(f as int, t as int) | (((p.code() << 12u16) & MASK_PROMOTION)
            | MASK_HAS_PROMOTION)) == Move::packed_prom(f as int, t as int, p),
        (Move { m: Move::packed_prom(f as int, t as int, p) }).from_sq() == f,
        (Move { m: Move::packed_prom(f as int, t as int, p) }).to_sq() == t,
        (Move { m: Move::packed_prom(f as int, t as int, p) }).has_promotion(),
        (Move { m: Move::packed_prom(f as int, t as int, p) }).promotion() == p,
{
    let c = p.code();
    assert(((f + 64 * t) as u16 | (((c << 12u16) & 12288u16) | 16384u16)) == (f + 64 * t + 4096
        * c + 16384) as u16) by (bit_vector)
        requires
            f < 64,
            t < 64,
            c < 4,
    ;
    assert((((f + 64 * t + 4096 * c + 16384) as u16 & 63u16) == f) && ((((f + 64 * t + 4096 * c
        + 16384) as u16 & 4032u16) >> 6u16) == t) && (((f + 64 * t + 4096 * c + 16384) as u16
        & 16384u16) != 0) && ((((f + 64 * t + 4096 * c + 16384) as u16 & 12288u16) >> 12u16)
        == c)) by (bit_vector)
        requires
            f < 64,
            t < 64,
            c < 4,
    ;
}

/// Reading the UCI text of a move gives the move back.
pub proof fn lemma_uci_roundtrip(m: Move)
    requires
        m.m < 32768,
        !m.has_promotion() ==> m.m < 4096,
    ensures
        Move::valid_uci(m.uci()),
        Move::parsed_uci(m.uci()) == m,
{
    let s = m.uci();
    let f = m.from_sq();
    let t = m.to_sq();
    let v = m.m;
    assert(v & 63u16 < 64 && (v & 4032u16) >> 6u16 < 64 && (v & 12288u16) >> 12u16 < 4) by (bit_vector);
    util::lemma_square_name_roundtrip(f);
    util::lemma_square_name_roundtrip(t);
    assert(s.subrange(0, s.len() as int).subrange(0, 2) =~= square_name(f));
    assert(s.subrange(2, s.len() as int).subrange(0, 2) =~= square_name(t));
    assert(s[0] == square_name(f)[0] && s[1] == square_name(f)[1]);
    assert(s.subrange(2, s.len() as int)[0] == square_name(t)[0]);
    assert(s.subrange(2, s.len() as int)[1] == square_name(t)[1]);
    if m.has_promotion() {
        let c = (v & 12288u16) >> 12u16;
        assert(v == ((v & 63u16) + 64 * ((v & 4032u16) >> 6u16) + 4096 * ((v & 12288u16) >> 12u16)
            + 16384) as u16) by (bit_vector)
            requires
                v < 32768,
                v & 16384u16 != 0,
        ;
        assert(Promotion::spec_from_letter(m.promotion().letter()) == Some(m.promotion()));
        assert(m.promotion().code() == c);
    } else {
        assert(v == ((v & 63u16) + 64 * ((v & 4032u16) >> 6u16)) as u16) by (bit_vector)
            requires
                v < 4096,
        ;
    }
}

} // verus!
