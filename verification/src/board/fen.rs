use vstd::prelude::*;
use crate::types::bitboard::{bit, single, one_square, group_bits, lemma_single, lemma_and_single};
use crate::types::{Bitboard, Piece, Side, Square};
use crate::board::board::Board;
use crate::util::{push_char, str_chars, square_name, starts_with_square, parsed_square};

verus! {

broadcast use group_bits;

/// Reading a position from Forsyth-Edwards Notation.
pub trait FenConsumer: Sized {
    fn from_fen(fen: &str) -> Self;
}

/// Writing a position in Forsyth-Edwards Notation.
pub trait FenProducer {
    fn export_fen(&self) -> String;
}

/// The decimal digit of `d < 10`.
pub open spec fn digit_char(d: int) -> char {
    ((d + 48) as u8) as char
}

/// The decimal text of `n`.
pub open spec fn decimal(n: nat) -> Seq<char>
    decreases n,
{
    if n < 10 {
        seq![digit_char(n as int)]
    } else {
        decimal(n / 10).push(digit_char((n % 10) as int))
    }
}

/// The letter of a piece kind, upper case for white and lower case for
/// black.
pub open spec fn piece_letter(side: int, p: Piece) -> char {
    match p {
        Piece::King => if side == 0 { 'K' } else { 'k' },
        Piece::Queen => if side == 0 { 'Q' } else { 'q' },
        Piece::Rook => if side == 0 { 'R' } else { 'r' },
        Piece::Bishop => if side == 0 { 'B' } else { 'b' },
        Piece::Knight => if side == 0 { 'N' } else { 'n' },
        Piece::Pawn => if side == 0 { 'P' } else { 'p' },
    }
}

impl Board {
    /// The letter of the piece on square `i`, `'!'` for an empty square.
    pub open spec fn symbol_at(self, i: int) -> char {
        if self.pieces[0][i] is Some {
            piece_letter(0, self.pieces[0][i]->0)
        } else if self.pieces[1][i] is Some {
            piece_letter(1, self.pieces[1][i]->0)
        } else {
            '!'
        }
    }

    /// The text of rank `rank` from file `file` on, after `run` empty
    /// squares: the letters of the pieces, with each run of empty squares
    /// written as its length.
    pub open spec fn rank_text(self, rank: int, file: int, run: nat) -> Seq<char>
        decreases 8 - file,
    {
        if file >= 8 {
            if run > 0 {
                decimal(run)
            } else {
                Seq::empty()
            }
        } else if self.pieces[0][rank * 8 + file] is None && self.pieces[1][rank * 8 + file] is None {
            self.rank_text(rank, file + 1, run + 1)
        } else {
            (if run > 0 {
                decimal(run)
            } else {
                Seq::<char>::empty()
            }) + seq![self.symbol_at(rank * 8 + file)] + self.rank_text(rank, file + 1, 0)
        }
    }

    /// The placement field: the ranks from the eighth down to the first,
    /// separated by slashes. `row` counts the ranks written so far.
    pub open spec fn placement_text(self, row: int) -> Seq<char>
        decreases 8 - row,
    {
        if row >= 8 {
            Seq::empty()
        } else if row == 7 {
            self.rank_text(7 - row, 0, 0)
        } else {
            self.rank_text(7 - row, 0, 0).push('/') + self.placement_text(row + 1)
        }
    }

    /// The castling field: `KQkq` for the rights held, `-` for none.
    pub open spec fn castling_text(self) -> Seq<char> {
        if !(self.castle_kingside[0] || self.castle_queenside[0] || self.castle_kingside[1]
            || self.castle_queenside[1]) {
            seq!['-']
        } else {
            (if self.castle_kingside[0] {
                seq!['K']
            } else {
                Seq::empty()
            }) + (if self.castle_queenside[0] {
                seq!['Q']
            } else {
                Seq::empty()
            }) + (if self.castle_kingside[1] {
                seq!['k']
            } else {
                Seq::empty()
            }) + (if self.castle_queenside[1] {
                seq!['q']
            } else {
                Seq::empty()
            })
        }
    }

    /// The en passant field: the name of the lowest square of the mask, or
    /// `-`.
    pub open spec fn en_passant_text(self) -> Seq<char> {
        if self.en_passant.bitboard == 0 {
            seq!['-']
        } else {
            square_name(vstd::std_specs::bits::u64_trailing_zeros(self.en_passant.bitboard) as int)
        }
    }

    /// The position in Forsyth-Edwards Notation.
    pub open spec fn fen_text(self) -> Seq<char> {
        self.placement_text(0) + seq![' '] + seq![
            if self.current_color == Side::White {
                'w'
            } else {
                'b'
            },
        ] + seq![' '] + self.castling_text() + seq![' '] + self.en_passant_text() + seq![' ']
            + decimal(self.half_moves_clock as nat) + seq![' '] + decimal(
            self.full_moves_count as nat,
        )
    }

    /// The letter of the piece on the square of a one-square mask.
    fn mask_to_symbol(&self, idx: usize) -> (r: char)
        requires
            idx < 64,
        ensures
            r == self.symbol_at(idx as int),
    {
        let p = self.pieces[0][idx];
        match p {
            Some(piece) => letter_of(0, piece),
            None => match self.pieces[1][idx] {
                Some(piece) => letter_of(1, piece),
                None => '!',
            },
        }
    }

    /// Appends the text of rank `rank`.
    fn write_rank(&self, result: &mut String, rank: usize)
        requires
            rank < 8,
        ensures
            final(result)@ == old(result)@ + self.rank_text(rank as int, 0, 0),
    {
        let ghost before = result@;
        let mut empty_counter: usize = 0;
        let mut file: usize = 0;
        while file < 8
            invariant
                file <= 8,
                empty_counter <= file,
                rank < 8,
                result@ + self.rank_text(rank as int, file as int, empty_counter as nat) == before
                    + self.rank_text(rank as int, 0, 0),
            decreases 8 - file,
        {
            let idx = rank * 8 + file;
            let occupied = self.pieces[0][idx].is_some() || self.pieces[1][idx].is_some();
            if !occupied {
                empty_counter = empty_counter + 1;
            } else {
                let ghost mid = result@;
                if empty_counter > 0 {
                    push_decimal(result, empty_counter as u32);
                }
                empty_counter = 0;
                push_char(result, self.mask_to_symbol(idx));
                proof {
                    assert(result@ + self.rank_text(rank as int, file as int + 1, 0) =~= before
                        + self.rank_text(rank as int, 0, 0));
                }
            }
            file = file + 1;
        }
        if empty_counter > 0 {
            push_decimal(result, empty_counter as u32);
        }
        assert(result@ =~= before + self.rank_text(rank as int, 0, 0));
    }

    /// Appends the placement field.
    fn write_placement(&self, result: &mut String)
        ensures
            final(result)@ == old(result)@ + self.placement_text(0),
    {
        let ghost start = result@;
        let mut row: usize = 0;
        while row < 8
            invariant
                row <= 8,
                result@ + self.placement_text(row as int) == start + self.placement_text(0),
            decreases 8 - row,
        {
            let ghost before = result@;
            self.write_rank(result, 7 - row);
            if row != 7 {
                push_char(result, '/');
            }
            assert(result@ + self.placement_text(row as int + 1) =~= before + self.placement_text(
                row as int,
            ));
            row = row + 1;
        }
        assert(result@ =~= start + self.placement_text(0));
    }

    /// Appends the castling field.
    fn write_castling(&self, result: &mut String)
        ensures
            final(result)@ == old(result)@ + self.castling_text(),
    {
        let ghost before = result@;
        if !(self.castle_kingside[0] || self.castle_queenside[0] || self.castle_kingside[1]
            || self.castle_queenside[1]) {
            push_char(result, '-');
        } else {
            if self.castle_kingside[0] {
                push_char(result, 'K');
            }
            if self.castle_queenside[0] {
                push_char(result, 'Q');
            }
            if self.castle_kingside[1] {
                push_char(result, 'k');
            }
            if self.castle_queenside[1] {
                push_char(result, 'q');
            }
        }
        assert(result@ =~= before + self.castling_text());
    }

    /// Writes the position in Forsyth-Edwards Notation.
    pub fn export_fen(&self) -> (r: String)
        ensures
            r@ == self.fen_text(),
    {
        let mut result = String::new();
        self.write_placement(&mut result);
        push_char(&mut result, ' ');
        push_char(
            &mut result,
            match self.side_to_move() {
                Side::White => 'w',
                Side::Black => 'b',
            },
        );
        push_char(&mut result, ' ');
        self.write_castling(&mut result);
        push_char(&mut result, ' ');
        if self.en_passant.empty() {
            push_char(&mut result, '-');
        } else {
            let square = crate::util::mask_to_str(self.en_passant.bitboard);
            push_str(&mut result, &square);
        }
        push_char(&mut result, ' ');
        push_decimal(&mut result, self.half_moves_clock);
        push_char(&mut result, ' ');
        push_decimal(&mut result, self.full_moves_count);
        assert(result@ =~= self.fen_text());
        result
    }
}

/// The letter of a piece kind for side index `side`.
fn letter_of(side: usize, p: Piece) -> (r: char)
    ensures
        r == piece_letter(side as int, p),
{
    match p {
        Piece::King => if side == 0 { 'K' } else { 'k' },
        Piece::Queen => if side == 0 { 'Q' } else { 'q' },
        Piece::Rook => if side == 0 { 'R' } else { 'r' },
        Piece::Bishop => if side == 0 { 'B' } else { 'b' },
        Piece::Knight => if side == 0 { 'N' } else { 'n' },
        Piece::Pawn => if side == 0 { 'P' } else { 'p' },
    }
}

/// The character of a decimal digit.
fn digit_to_char(d: u32) -> (r: char)
    requires
        d < 10,
    ensures
        r == digit_char(d as int),
{
    let b: u8 = (d as u8) + 48;
    b as char
}

/// Appends the decimal text of `n`.
pub fn push_decimal(s: &mut String, n: u32)
    ensures
        final(s)@ == old(s)@ + decimal(n as nat),
    decreases n,
{
    if n >= 10 {
        push_decimal(s, n / 10);
    }
    push_char(s, digit_to_char(n % 10));
    proof {
        if n >= 10 {
            assert(final(s)@ =~= old(s)@ + decimal(n as nat));
        } else {
            assert(final(s)@ =~= old(s)@ + decimal(n as nat));
        }
    }
}

/// Appends all characters of `t`.
fn push_str(s: &mut String, t: &String)
    ensures
        final(s)@ == old(s)@ + t@,
{
    let chars = str_chars(t.as_str());
    let mut i: usize = 0;
    while i < chars.len()
        invariant
            i <= chars@.len(),
            chars@ == t@,
            s@ == old(s)@ + t@.subrange(0, i as int),
        decreases chars@.len() - i,
    {
        push_char(s, chars[i]);
        i = i + 1;
        assert(s@ =~= old(s)@ + t@.subrange(0, i as int));
    }
    assert(t@.subrange(0, i as int) =~= t@);
}


/// The side and kind of a piece letter of the notation.
fn piece_of_letter(c: char) -> (r: Option<(Side, Piece)>)
    ensures
        r matches Some((side, p)) ==> piece_letter(side.spec_idx(), p) == c,
        r is None ==> forall|side: Side, p: Piece| piece_letter(side.spec_idx(), p) != c,
{
    match c {
        'K' => Some((Side::White, Piece::King)),
        'k' => Some((Side::Black, Piece::King)),
        'Q' => Some((Side::White, Piece::Queen)),
        'q' => Some((Side::Black, Piece::Queen)),
        'R' => Some((Side::White, Piece::Rook)),
        'r' => Some((Side::Black, Piece::Rook)),
        'B' => Some((Side::White, Piece::Bishop)),
        'b' => Some((Side::Black, Piece::Bishop)),
        'N' => Some((Side::White, Piece::Knight)),
        'n' => Some((Side::Black, Piece::Knight)),
        'P' => Some((Side::White, Piece::Pawn)),
        'p' => Some((Side::Black, Piece::Pawn)),
        _ => None,
    }
}

/// The value of a decimal digit character.
fn digit_value(c: char) -> (r: Option<u32>)
    ensures
        r matches Some(d) ==> d < 10 && digit_char(d as int) == c,
        r is None ==> forall|d: int| 0 <= d < 10 ==> #[trigger] digit_char(d) != c,
{
    match c {
        '0' => Some(0),
        '1' => Some(1),
        '2' => Some(2),
        '3' => Some(3),
        '4' => Some(4),
        '5' => Some(5),
        '6' => Some(6),
        '7' => Some(7),
        '8' => Some(8),
        '9' => Some(9),
        _ => None,
    }
}

impl Board {
    /// The fields of the FEN text after the placement, each after a space:
    /// the side to move, the castling rights, the en passant square and the
    /// two clocks.
    pub open spec fn fields_text(self) -> Seq<char> {
        seq![' '] + seq![
            if self.current_color == Side::White {
                'w'
            } else {
                'b'
            },
        ] + seq![' '] + self.castling_text() + seq![' '] + self.en_passant_text() + seq![' ']
            + decimal(self.half_moves_clock as nat) + seq![' '] + decimal(
            self.full_moves_count as nat,
        )
    }

    /// What follows rank `row` (counted from the eighth) in the FEN text.
    pub open spec fn after_rank(self, row: int) -> Seq<char> {
        if row >= 7 {
            self.fields_text()
        } else {
            seq!['/'] + self.placement_text(row + 1) + self.fields_text()
        }
    }

    /// The FEN text from rank `row` (counted from the eighth) on, or from
    /// the side to move once all ranks are read.
    pub open spec fn text_from_rank(self, row: int) -> Seq<char> {
        if row < 8 {
            self.placement_text(row) + self.fields_text()
        } else {
            self.fields_text().drop_first()
        }
    }

    /// The first file from `f` on of rank `rank` that holds a piece, or 8.
    pub open spec fn next_occupied(self, rank: int, f: int) -> int
        decreases 8 - f,
    {
        if f >= 8 {
            8
        } else if self.pieces[0][rank * 8 + f] is Some || self.pieces[1][rank * 8 + f] is Some {
            f
        } else {
            self.next_occupied(rank, f + 1)
        }
    }

    /// Square `x` of rank `rank` is empty.
    pub open spec fn empty_at(self, rank: int, x: int) -> bool {
        self.pieces[0][rank * 8 + x] is None && self.pieces[1][rank * 8 + x] is None
    }

    /// A board that its FEN text gives back: well formed, with no more than
    /// one en passant square.
    pub open spec fn fen_readable(self) -> bool {
        &&& self.wf()
        &&& (self.en_passant.bitboard == 0 || one_square(self.en_passant.bitboard))
    }

    /// The board holds the position of `b`: the pieces, the side to move,
    /// the castling rights, the en passant square and the clocks.
    pub open spec fn reads_back(self, b: Board) -> bool {
        &&& forall|s: int, q: int| 0 <= s < 2 && 0 <= q < 64 ==> #[trigger] self.pieces[s][q] == b.pieces[s][q]
        &&& self.castle_kingside == b.castle_kingside
        &&& self.castle_queenside == b.castle_queenside
        &&& self.current_color == b.current_color
        &&& self.en_passant.bitboard == b.en_passant.bitboard
        &&& self.half_moves_clock == b.half_moves_clock
        &&& self.full_moves_count == b.full_moves_count
    }
}

/// `board` holds the pieces of `b` on the ranks above rank `7 - row` and
/// on the files of that rank before `file`, and nothing elsewhere.
pub open spec fn placed_upto(board: Board, b: Board, row: int, file: int) -> bool {
    forall|s: int, i: int|
        0 <= s < 2 && 0 <= i < 64 ==> #[trigger] board.pieces[s][i] == (if i / 8 > 7 - row || (i / 8
            == 7 - row && i % 8 < file) {
            b.pieces[s][i]
        } else {
            None
        })
}

/// The FEN text is the placement followed by the other fields.
proof fn lemma_fen_split(b: Board)
    ensures
        b.fen_text() == b.placement_text(0) + b.fields_text(),
{
    assert(b.fen_text() =~= b.placement_text(0) + b.fields_text());
}

/// The text from a rank on is the rank followed by what comes after it.
proof fn lemma_rank_split(b: Board, row: int)
    requires
        0 <= row < 8,
    ensures
        b.text_from_rank(row) == b.rank_text(7 - row, 0, 0) + b.after_rank(row),
{
    if row == 7 {
        assert(b.text_from_rank(row) =~= b.rank_text(7 - row, 0, 0) + b.after_rank(row));
    } else {
        assert(b.placement_text(row) == b.rank_text(7 - row, 0, 0).push('/') + b.placement_text(
            row + 1,
        ));
        assert(b.text_from_rank(row) =~= b.rank_text(7 - row, 0, 0) + b.after_rank(row));
    }
}

/// After its last file a rank leaves what comes after it, whose first
/// character is a slash, or the space before the side to move.
proof fn lemma_after_rank(b: Board, row: int)
    requires
        0 <= row < 8,
    ensures
        b.rank_text(7 - row, 8, 0) == Seq::<char>::empty(),
        b.after_rank(row).len() > 0,
        b.after_rank(row)[0] == (if row == 7 {
            ' '
        } else {
            '/'
        }),
        b.after_rank(row).drop_first() == b.text_from_rank(row + 1),
{
    if row == 7 {
        assert(b.after_rank(row).drop_first() =~= b.text_from_rank(row + 1));
    } else {
        assert(b.after_rank(row).drop_first() =~= b.text_from_rank(row + 1));
    }
}

/// A run of empty squares adds to the count of empty squares.
proof fn lemma_rank_run(b: Board, rank: int, f: int, g: int, run: nat)
    requires
        0 <= rank < 8,
        0 <= f <= g <= 8,
        forall|x: int| f <= x < g ==> #[trigger] b.empty_at(rank, x),
    ensures
        b.rank_text(rank, f, run) == b.rank_text(rank, g, (run + (g - f)) as nat),
    decreases g - f,
{
    if f < g {
        assert(b.empty_at(rank, f));
        lemma_rank_run(b, rank, f + 1, g, run + 1);
    }
}

/// The empty squares before the next piece of a rank.
proof fn lemma_next_occupied(b: Board, rank: int, f: int)
    requires
        0 <= rank < 8,
        0 <= f <= 8,
    ensures
        f <= b.next_occupied(rank, f) <= 8,
        forall|x: int| f <= x < b.next_occupied(rank, f) ==> #[trigger] b.empty_at(rank, x),
        b.next_occupied(rank, f) < 8 ==> b.pieces[0][rank * 8 + b.next_occupied(rank, f)] is Some
            || b.pieces[1][rank * 8 + b.next_occupied(rank, f)] is Some,
    decreases 8 - f,
{
    if f < 8 && !(b.pieces[0][rank * 8 + f] is Some || b.pieces[1][rank * 8 + f] is Some) {
        lemma_next_occupied(b, rank, f + 1);
    }
}

/// The text of a rank from a file on starts with the piece there, or with
/// the count of the empty squares up to the next piece.
proof fn lemma_rank_step(b: Board, rank: int, f: int)
    requires
        0 <= rank < 8,
        0 <= f < 8,
    ensures
        ({
            let g = b.next_occupied(rank, f);
            if g == f {
                b.rank_text(rank, f, 0) == seq![b.symbol_at(rank * 8 + f)] + b.rank_text(rank, f + 1, 0)
            } else {
                b.rank_text(rank, f, 0) == seq![digit_char(g - f)] + b.rank_text(rank, g, 0)
            }
        }),
{
    lemma_next_occupied(b, rank, f);
    let g = b.next_occupied(rank, f);
    if g == f {
        assert(b.rank_text(rank, f, 0) =~= seq![b.symbol_at(rank * 8 + f)] + b.rank_text(rank, f + 1, 0));
    } else {
        lemma_rank_run(b, rank, f, g, 0);
        assert(decimal((g - f) as nat) == seq![digit_char(g - f)]);
        if g < 8 {
            assert(b.rank_text(rank, g, (g - f) as nat) =~= seq![digit_char(g - f)] + seq![
                b.symbol_at(rank * 8 + g),
            ] + b.rank_text(rank, g + 1, 0));
            assert(b.rank_text(rank, g, 0) =~= seq![b.symbol_at(rank * 8 + g)] + b.rank_text(
                rank,
                g + 1,
                0,
            ));
            assert(b.rank_text(rank, f, 0) =~= seq![digit_char(g - f)] + b.rank_text(rank, g, 0));
        } else {
            assert(b.rank_text(rank, f, 0) =~= seq![digit_char(g - f)] + b.rank_text(rank, g, 0));
        }
    }
}

/// The letter of an occupied square names the side and the kind of its
/// piece, and is no digit, slash or space.
proof fn lemma_symbol(b: Board, sq: int, side: Side, p: Piece)
    requires
        b.wf(),
        0 <= sq < 64,
        b.pieces[0][sq] is Some || b.pieces[1][sq] is Some,
        piece_letter(side.spec_idx(), p) == b.symbol_at(sq),
    ensures
        b.pieces[side.spec_idx()][sq] == Some(p),
        b.pieces[1 - side.spec_idx()][sq] is None,
        b.symbol_at(sq) != '/',
        b.symbol_at(sq) != ' ',
        forall|d: int| 0 <= d < 10 ==> b.symbol_at(sq) != #[trigger] digit_char(d),
{
    assert(b.square_ok(sq));
}

/// Digits are told apart by their characters, which are no slash, space
/// or piece letter.
proof fn lemma_digit_char(d: int)
    requires
        0 <= d < 10,
    ensures
        digit_char(d) as u32 == d + 48,
        digit_char(d) != '/',
        digit_char(d) != ' ',
        forall|e: int| 0 <= e < 10 && #[trigger] digit_char(e) == digit_char(d) ==> e == d,
        forall|side: int, p: Piece| #[trigger] piece_letter(side, p) != digit_char(d),
{
    assert forall|e: int| 0 <= e < 10 && #[trigger] digit_char(e) == digit_char(d) implies e == d by {
        assert(digit_char(e) as u32 == e + 48);
    }
}

/// Reading a character of a rank: the separator after the last file, else
/// the letter of the piece on the next square, or the count of the empty
/// squares before the next piece.
proof fn lemma_read_square(b: Board, text: Seq<char>, i: int, rank: int, file: int)
    requires
        b.fen_readable(),
        0 <= rank < 8,
        0 <= file <= 8,
        0 <= i <= text.len(),
        text.subrange(i, text.len() as int) == b.rank_text(7 - rank, file, 0) + b.after_rank(rank),
    ensures
        i < text.len(),
        (text[i] == '/' || text[i] == ' ') <==> file == 8,
        file == 8 ==> text.subrange(i + 1, text.len() as int) == b.text_from_rank(rank + 1),
        file < 8 ==> ({
            let g = b.next_occupied(7 - rank, file);
            &&& file <= g <= 8
            &&& forall|x: int| file <= x < g ==> #[trigger] b.empty_at(7 - rank, x)
            &&& if g == file {
                &&& text[i] == b.symbol_at((7 - rank) * 8 + file)
                &&& forall|d: int| 0 <= d < 10 ==> text[i] != #[trigger] digit_char(d)
                &&& (b.pieces[0][(7 - rank) * 8 + file] is Some || b.pieces[1][(7 - rank) * 8
                    + file] is Some)
                &&& text.subrange(i + 1, text.len() as int) == b.rank_text(7 - rank, file + 1, 0)
                    + b.after_rank(rank)
            } else {
                &&& text[i] == digit_char(g - file)
                &&& text.subrange(i + 1, text.len() as int) == b.rank_text(7 - rank, g, 0)
                    + b.after_rank(rank)
            }
        }),
{
    let rest = text.subrange(i, text.len() as int);
    lemma_after_rank(b, rank);
    assert(rest.len() > 0);
    assert(text[i] == rest[0]);
    if file == 8 {
        assert(rest =~= b.after_rank(rank));
        assert(text.subrange(i + 1, text.len() as int) =~= rest.drop_first());
    } else {
        let r = 7 - rank;
        lemma_next_occupied(b, r, file);
        lemma_rank_step(b, r, file);
        let g = b.next_occupied(r, file);
        let sq = r * 8 + file;
        if g == file {
            let side = if b.pieces[0][sq] is Some {
                Side::White
            } else {
                Side::Black
            };
            let p = b.pieces[side.spec_idx()][sq]->0;
            assert(b.square_ok(sq));
            assert(b.symbol_at(sq) == piece_letter(side.spec_idx(), p));
            lemma_symbol(b, sq, side, p);
            assert forall|d: int| 0 <= d < 10 implies text[i] != #[trigger] digit_char(d) by {
                lemma_digit_char(d);
            }
            assert(text.subrange(i + 1, text.len() as int) =~= rest.drop_first());
        } else {
            lemma_digit_char(g - file);
            assert(text.subrange(i + 1, text.len() as int) =~= rest.drop_first());
        }
    }
}

impl Board {
    /// The FEN text from the castling field on.
    pub open spec fn castling_rest(self) -> Seq<char> {
        self.castling_text() + seq![' '] + self.en_passant_rest()
    }

    /// The FEN text from the en passant field on.
    pub open spec fn en_passant_rest(self) -> Seq<char> {
        self.en_passant_text() + seq![' '] + self.clocks_rest()
    }

    /// The FEN text of the two clocks.
    pub open spec fn clocks_rest(self) -> Seq<char> {
        decimal(self.half_moves_clock as nat) + seq![' '] + decimal(self.full_moves_count as nat)
    }

    /// The letter of the side to move.
    pub open spec fn side_letter(self) -> char {
        if self.current_color == Side::White {
            'w'
        } else {
            'b'
        }
    }

    /// Some castling right is held.
    pub open spec fn any_castling(self) -> bool {
        self.castle_kingside[0] || self.castle_queenside[0] || self.castle_kingside[1]
            || self.castle_queenside[1]
    }
}

/// The castling rights that the letters `p` name.
pub open spec fn rights_named(p: Seq<char>, kingside: [bool; 2], queenside: [bool; 2]) -> bool {
    &&& kingside[0] == p.contains('K')
    &&& queenside[0] == p.contains('Q')
    &&& kingside[1] == p.contains('k')
    &&& queenside[1] == p.contains('q')
}

/// The number that the decimal digits `s` write.
pub open spec fn digits_number(s: Seq<char>) -> int
    decreases s.len(),
{
    if s.len() == 0 {
        0
    } else {
        10 * digits_number(s.drop_last()) + (s.last() as u32 - 48)
    }
}

/// The fields after the placement split into the side to move and the rest.
proof fn lemma_fields(b: Board)
    ensures
        b.fields_text().drop_first() == seq![b.side_letter(), ' '] + b.castling_rest(),
{
    assert(b.fields_text().drop_first() =~= seq![b.side_letter(), ' '] + b.castling_rest());
}

/// The castling field is a dash for no rights, else the letters of the
/// rights held, each once.
proof fn lemma_castling_letters(b: Board)
    ensures
        b.castling_text().len() > 0,
        !b.any_castling() ==> b.castling_text() == seq!['-'],
        b.any_castling() ==> {
            let l = b.castling_text();
            &&& forall|j: int|
                0 <= j < l.len() ==> (#[trigger] l[j] == 'K' || l[j] == 'Q' || l[j] == 'k' || l[j]
                    == 'q')
            &&& rights_named(l, b.castle_kingside, b.castle_queenside)
        },
{
    let l = b.castling_text();
    if b.any_castling() {
        let a = if b.castle_kingside[0] { seq!['K'] } else { Seq::<char>::empty() };
        let q = if b.castle_queenside[0] { seq!['Q'] } else { Seq::<char>::empty() };
        let c = if b.castle_kingside[1] { seq!['k'] } else { Seq::<char>::empty() };
        let d = if b.castle_queenside[1] { seq!['q'] } else { Seq::<char>::empty() };
        assert(l =~= a + q + c + d);
        assert forall|j: int| 0 <= j < l.len() implies (#[trigger] l[j] == 'K' || l[j] == 'Q' || l[j]
            == 'k' || l[j] == 'q') by {
            if j < a.len() {
                assert(l[j] == a[j]);
            } else if j < a.len() + q.len() {
                assert(l[j] == q[j - a.len()]);
            } else if j < a.len() + q.len() + c.len() {
                assert(l[j] == c[j - a.len() - q.len()]);
            } else {
                assert(l[j] == d[j - a.len() - q.len() - c.len()]);
            }
        }
        if b.castle_kingside[0] {
            assert(l[0] == 'K');
        }
        if b.castle_queenside[0] {
            assert(l[a.len() as int] == 'Q');
        }
        if b.castle_kingside[1] {
            assert(l[(a.len() + q.len()) as int] == 'k');
        }
        if b.castle_queenside[1] {
            assert(l[(a.len() + q.len() + c.len()) as int] == 'q');
        }
        if l.contains('K') {
            let j = choose|j: int| 0 <= j < l.len() && l[j] == 'K';
            if j >= a.len() {
                if j < a.len() + q.len() {
                    assert(l[j] == q[j - a.len()]);
                } else if j < a.len() + q.len() + c.len() {
                    assert(l[j] == c[j - a.len() - q.len()]);
                } else {
                    assert(l[j] == d[j - a.len() - q.len() - c.len()]);
                }
            }
        }
        if l.contains('Q') {
            let j = choose|j: int| 0 <= j < l.len() && l[j] == 'Q';
            if j < a.len() {
                assert(l[j] == a[j]);
            } else if j >= a.len() + q.len() {
                if j < a.len() + q.len() + c.len() {
                    assert(l[j] == c[j - a.len() - q.len()]);
                } else {
                    assert(l[j] == d[j - a.len() - q.len() - c.len()]);
                }
            }
        }
        if l.contains('k') {
            let j = choose|j: int| 0 <= j < l.len() && l[j] == 'k';
            if j < a.len() {
                assert(l[j] == a[j]);
            } else if j < a.len() + q.len() {
                assert(l[j] == q[j - a.len()]);
            } else if j >= a.len() + q.len() + c.len() {
                assert(l[j] == d[j - a.len() - q.len() - c.len()]);
            }
        }
        if l.contains('q') {
            let j = choose|j: int| 0 <= j < l.len() && l[j] == 'q';
            if j < a.len() {
                assert(l[j] == a[j]);
            } else if j < a.len() + q.len() {
                assert(l[j] == q[j - a.len()]);
            } else if j < a.len() + q.len() + c.len() {
                assert(l[j] == c[j - a.len() - q.len()]);
            }
        }
    }
}

/// The first `k + 1` letters name what the first `k` name and letter `k`.
proof fn lemma_take_contains(s: Seq<char>, k: int, x: char)
    requires
        0 <= k < s.len(),
    ensures
        s.take(k + 1).contains(x) == (s.take(k).contains(x) || s[k] == x),
{
    let t = s.take(k + 1);
    assert(t[k] == s[k]);
    if t.contains(x) {
        let j = choose|j: int| 0 <= j < t.len() && t[j] == x;
        if j < k {
            assert(s.take(k)[j] == x);
        }
    }
    if s.take(k).contains(x) {
        let j = choose|j: int| 0 <= j < k && s.take(k)[j] == x;
        assert(t[j] == x);
    }
}

/// The decimal text of a number is made of digits and writes the number;
/// each longer start of it writes at least as much.
proof fn lemma_decimal(n: nat)
    ensures
        decimal(n).len() > 0,
        forall|j: int|
            0 <= j < decimal(n).len() ==> exists|d: int| 0 <= d < 10 && #[trigger] decimal(n)[j] == digit_char(d),
        digits_number(decimal(n)) == n,
    decreases n,
{
    if n < 10 {
        lemma_digit_char(n as int);
        assert(decimal(n).drop_last() =~= Seq::<char>::empty());
        assert(decimal(n).last() == digit_char(n as int));
        assert(digits_number(decimal(n)) == 10 * digits_number(decimal(n).drop_last()) + (
        decimal(n).last() as u32 - 48));
    } else {
        lemma_decimal(n / 10);
        lemma_digit_char((n % 10) as int);
        assert(decimal(n).drop_last() =~= decimal(n / 10));
        assert(decimal(n).last() == digit_char((n % 10) as int));
        assert(digits_number(decimal(n)) == 10 * digits_number(decimal(n).drop_last()) + (
        decimal(n).last() as u32 - 48));
        assert forall|j: int| 0 <= j < decimal(n).len() implies exists|d: int|
            0 <= d < 10 && #[trigger] decimal(n)[j] == digit_char(d) by {
            if j < decimal(n / 10).len() {
                assert(decimal(n)[j] == decimal(n / 10)[j]);
            } else {
                assert(decimal(n)[j] == digit_char((n % 10) as int));
            }
        }
    }
}

/// A longer start of a run of digits writes at least as much.
proof fn lemma_digits_prefix(s: Seq<char>, k: int)
    requires
        0 <= k <= s.len(),
        forall|j: int| 0 <= j < s.len() ==> 48 <= #[trigger] s[j] as u32 <= 57,
    ensures
        digits_number(s.take(k)) <= digits_number(s),
        0 <= digits_number(s.take(k)),
    decreases s.len() - k,
{
    if k < s.len() {
        lemma_digits_prefix(s, k + 1);
        assert(s.take(k + 1).drop_last() =~= s.take(k));
        lemma_digits_nonneg(s.take(k));
    } else {
        assert(s.take(k) =~= s);
        lemma_digits_nonneg(s);
    }
}

proof fn lemma_digits_nonneg(s: Seq<char>)
    requires
        forall|j: int| 0 <= j < s.len() ==> 48 <= #[trigger] s[j] as u32 <= 57,
    ensures
        0 <= digits_number(s),
    decreases s.len(),
{
    if s.len() > 0 {
        assert forall|j: int| 0 <= j < s.drop_last().len() implies 48 <= #[trigger] s.drop_last()[j] as u32 <= 57 by {
            assert(s.drop_last()[j] == s[j]);
        }
        lemma_digits_nonneg(s.drop_last());
    }
}

impl Board {
    /// Reads a position from Forsyth-Edwards Notation: the placement rank
    /// by rank from the eighth, the side to move, the castling rights, the
    /// en passant square and the two clocks. Reading stops at the first
    /// character that does not fit; the placement alone may be given.
    #[verifier::rlimit(100)]
    #[verifier::spinoff_prover]
    pub fn from_fen(fen: &str) -> (r: Board)
        ensures
            r.wf(),
            forall|b: Board| b.fen_readable() && #[trigger] b.fen_text() == fen@ ==> r.reads_back(b),
            forall|b: Board| b.fen_readable() && #[trigger] b.fen_text() == fen@ ==> r.hash == r.position_hash(),
            r.history@.len() == 0,
    {
        let chars = str_chars(fen);
        let n = chars.len();
        let ghost text = chars@;
        let mut board = Board::new();
        let mut i: usize = 0;
        let mut rank: usize = 0;
        proof {
            assert forall|b: Board| b.fen_readable() && #[trigger] b.fen_text() == text implies {
                &&& chars@.subrange(0, n as int) == b.text_from_rank(0)
                &&& placed_upto(board, b, 0, 0)
            } by {
                lemma_fen_split(b);
                assert(chars@.subrange(0, n as int) =~= text);
            }
        }
        while rank < 8
            invariant
                board.history@.len() == 0,
                board.wf(),
                i <= n,
                n == chars@.len(),
                text == chars@,
                text == fen@,
                rank <= 8,
                forall|b: Board| b.fen_readable() && #[trigger] b.fen_text() == text ==> {
                    &&& chars@.subrange(i as int, n as int) == b.text_from_rank(rank as int)
                    &&& placed_upto(board, b, rank as int, 0)
                },
            decreases 8 - rank,
        {
            let mut file: usize = 0;
            proof {
                assert forall|b: Board| b.fen_readable() && #[trigger] b.fen_text() == text implies {
                    &&& chars@.subrange(i as int, n as int) == b.rank_text(7 - rank, 0, 0) + b.after_rank(
                        rank as int,
                    )
                    &&& placed_upto(board, b, rank as int, 0)
                } by {
                    lemma_rank_split(b, rank as int);
                }
            }
            loop
                invariant_except_break
                    forall|b: Board| b.fen_readable() && #[trigger] b.fen_text() == text ==> {
                        &&& file <= 8
                        &&& chars@.subrange(i as int, n as int) == b.rank_text(7 - rank, file as int, 0)
                            + b.after_rank(rank as int)
                        &&& placed_upto(board, b, rank as int, file as int)
                    },
                invariant
                    board.history@.len() == 0,
                    board.wf(),
                    i <= n,
                    n == chars@.len(),
                    text == chars@,
                    text == fen@,
                    file <= 64,
                    rank < 8,
                ensures
                    board.wf(),
                    i <= n,
                    forall|b: Board| b.fen_readable() && #[trigger] b.fen_text() == text ==> {
                        &&& chars@.subrange(i as int, n as int) == b.text_from_rank(rank + 1)
                        &&& placed_upto(board, b, rank + 1, 0)
                    },
                decreases n - i,
            {
                if i >= n {
                    proof {
                        assert forall|b: Board| b.fen_readable() && #[trigger] b.fen_text() == fen@ implies board.reads_back(b)
                            && board.hash == board.position_hash() by {
                            assert(b.fields_text().len() >= 1);
                            assert(b.after_rank(rank as int).len() >= 1);
                            assert(chars@.subrange(i as int, n as int).len() == 0);
                        }
                    }
                    return board;
                }
                let ghost i0 = i;
                let ghost file0 = file;
                let ghost board0 = board;
                let c = chars[i];
                i = i + 1;
                if c == '/' || c == ' ' {
                    proof {
                        assert forall|b: Board| b.fen_readable() && #[trigger] b.fen_text() == text implies {
                            &&& chars@.subrange(i as int, n as int) == b.text_from_rank(rank + 1)
                            &&& placed_upto(board, b, rank + 1, 0)
                        } by {
                            lemma_read_square(b, text, i0 as int, rank as int, file as int);
                            assert forall|s: int, q: int| 0 <= s < 2 && 0 <= q < 64 implies #[trigger] board.pieces[s][q] == (if q / 8 > 7 - (rank + 1) || (q / 8 == 7 - (rank + 1) && q % 8 < 0) {
                                b.pieces[s][q]
                            } else {
                                None
                            }) by {
                                assert(placed_upto(board, b, rank as int, file as int));
                            }
                        }
                    }
                    break;
                }
                let dv = digit_value(c);
                let pl = piece_of_letter(c);
                match dv {
                    Some(d) => {
                        if d >= 2 && d <= 8 && file + (d as usize) - 1 <= 64 {
                            file = file + (d as usize) - 1;
                        }
                    },
                    None => {
                        match pl {
                            Some((side, piece)) => {
                                if file < 8 {
                                    let mask = Bitboard::from_coords(file, 7 - rank);
                                    proof {
                                        lemma_single((7 - rank) * 8 + file);
                                        lemma_and_single(board.any_piece.bitboard, (7 - rank) * 8 + file);
                                        assert(board.square_ok((7 - rank) * 8 + file));
                                    }
                                    if !board.has_piece(mask) {
                                        board.put_piece(side, mask, piece);
                                    }
                                }
                            },
                            None => {},
                        }
                    },
                }
                if file < 64 {
                    file = file + 1;
                }
                proof {
                    assert forall|b: Board| b.fen_readable() && #[trigger] b.fen_text() == text implies {
                        &&& file <= 8
                        &&& chars@.subrange(i as int, n as int) == b.rank_text(7 - rank, file as int, 0)
                            + b.after_rank(rank as int)
                        &&& placed_upto(board, b, rank as int, file as int)
                    } by {
                        lemma_read_square(b, text, i0 as int, rank as int, file0 as int);
                        let r = 7 - rank;
                        let g = b.next_occupied(r, file0 as int);
                        let sq = r * 8 + file0;
                        assert(placed_upto(board0, b, rank as int, file0 as int));
                        if g == file0 {
                            if dv is Some {
                                assert(digit_char(dv->0 as int) == c);
                            }
                            let bs = if b.pieces[0][sq] is Some {
                                Side::White
                            } else {
                                Side::Black
                            };
                            assert(b.square_ok(sq));
                            assert(piece_letter(bs.spec_idx(), b.pieces[bs.spec_idx()][sq]->0) == c);
                            let (side, piece) = pl->0;
                            lemma_symbol(b, sq, side, piece);
                            assert(board0.pieces[0][sq] is None && board0.pieces[1][sq] is None);
                            assert(board0.square_ok(sq));
                            lemma_single(sq);
                            lemma_and_single(board0.any_piece.bitboard, sq);
                            assert forall|s: int, q: int| 0 <= s < 2 && 0 <= q < 64 implies #[trigger] board.pieces[s][q] == (if q / 8 > 7 - rank || (q / 8 == 7 - rank && q % 8 < file) {
                                b.pieces[s][q]
                            } else {
                                None
                            }) by {
                                if !(s == side.spec_idx() && q == sq) {
                                    assert(board.pieces[s][q] == board0.pieces[s][q]);
                                }
                            }
                        } else {
                            lemma_digit_char(g - file0);
                            assert(dv is Some);
                            lemma_digit_char(dv->0 as int);
                            assert(dv->0 == g - file0);
                            assert forall|s: int, q: int| 0 <= s < 2 && 0 <= q < 64 implies #[trigger] board.pieces[s][q] == (if q / 8 > 7 - rank || (q / 8 == 7 - rank && q % 8 < file) {
                                b.pieces[s][q]
                            } else {
                                None
                            }) by {
                                assert(board.pieces[s][q] == board0.pieces[s][q]);
                                if q / 8 == 7 - rank && file0 <= q % 8 < g {
                                    assert(b.empty_at(r, q % 8));
                                    assert(q == r * 8 + q % 8);
                                }
                            }
                        }
                    }
                }
            }
            rank = rank + 1;
        }

        let ghost b_placed = board;
        proof {
            assert forall|b: Board| b.fen_readable() && #[trigger] b.fen_text() == text implies {
                &&& chars@.subrange(i as int, n as int) == seq![b.side_letter(), ' '] + b.castling_rest()
                &&& forall|s: int, q: int| 0 <= s < 2 && 0 <= q < 64 ==> #[trigger] board.pieces[s][q] == b.pieces[s][q]
            } by {
                lemma_fields(b);
                assert(placed_upto(board, b, 8, 0));
            }
        }
        let ghost i_s = i;
        if i < n {
            if chars[i] == 'w' {
                board.current_color = Side::White;
            } else if chars[i] == 'b' {
                board.current_color = Side::Black;
            }
            i = i + 1;
        }
        if i < n && chars[i] == ' ' {
            i = i + 1;
        }
        proof {
            assert forall|b: Board| b.fen_readable() && #[trigger] b.fen_text() == text implies {
                &&& chars@.subrange(i as int, n as int) == b.castling_rest()
                &&& board.current_color == b.current_color
            } by {
                let rest = chars@.subrange(i_s as int, n as int);
                assert(rest[0] == chars@[i_s as int]);
                assert(rest[1] == chars@[i_s + 1]);
                assert(chars@.subrange(i as int, n as int) =~= rest.skip(2));
            }
        }
        let ghost i_c = i;
        let ghost color = board.current_color;
        board.castle_kingside = [false, false];
        board.castle_queenside = [false, false];
        proof {
            assert forall|b: Board| b.fen_readable() && #[trigger] b.fen_text() == text implies rights_named(
                b.castling_text().take(0),
                board.castle_kingside,
                board.castle_queenside,
            ) by {
                assert(b.castling_text().take(0) =~= Seq::<char>::empty());
            }
        }
        while i < n
            invariant_except_break
                forall|b: Board| b.fen_readable() && #[trigger] b.fen_text() == text ==> {
                    let l = b.castling_text();
                    &&& i - i_c <= l.len()
                    &&& (!b.any_castling() ==> i == i_c)
                    &&& rights_named(l.take(i - i_c), board.castle_kingside, board.castle_queenside)
                },
            invariant
                board.history@.len() == 0,
                i_c <= i <= n,
                n == chars@.len(),
                text == chars@,
                board.same_pieces(b_placed),
                b_placed.wf(),
                board.current_color == color,
                board.en_passant == b_placed.en_passant,
                forall|b: Board| b.fen_readable() && #[trigger] b.fen_text() == text ==> {
                    &&& chars@.subrange(i_c as int, n as int) == b.castling_rest()
                    &&& b.current_color == color
                    &&& forall|s: int, q: int| 0 <= s < 2 && 0 <= q < 64 ==> #[trigger] board.pieces[s][q] == b.pieces[s][q]
                },
            ensures
                i <= n,
                n == chars@.len(),
                text == chars@,
                board.same_pieces(b_placed),
                b_placed.wf(),
                board.current_color == color,
                board.en_passant == b_placed.en_passant,
                forall|b: Board| b.fen_readable() && #[trigger] b.fen_text() == text ==> {
                    &&& chars@.subrange(i as int, n as int) == b.en_passant_rest()
                    &&& b.current_color == color
                    &&& board.castle_kingside == b.castle_kingside
                    &&& board.castle_queenside == b.castle_queenside
                    &&& forall|s: int, q: int| 0 <= s < 2 && 0 <= q < 64 ==> #[trigger] board.pieces[s][q] == b.pieces[s][q]
                },
            decreases n - i,
        {
            let ghost i0 = i;
            let ghost ks0 = board.castle_kingside;
            let ghost qs0 = board.castle_queenside;
            let c = chars[i];
            i = i + 1;
            if c == '-' {
                if i < n {
                    i = i + 1;
                }
                proof {
                    assert forall|b: Board| b.fen_readable() && #[trigger] b.fen_text() == text implies {
                        &&& chars@.subrange(i as int, n as int) == b.en_passant_rest()
                        &&& board.castle_kingside == b.castle_kingside
                        &&& board.castle_queenside == b.castle_queenside
                    } by {
                        lemma_castling_letters(b);
                        let l = b.castling_text();
                        let rest = chars@.subrange(i_c as int, n as int);
                        assert(rest[i0 - i_c] == c);
                        if b.any_castling() {
                            if i0 - i_c < l.len() {
                                assert(rest[i0 - i_c] == l[i0 - i_c]);
                            } else {
                                assert(rest[i0 - i_c] == ' ');
                            }
                        }
                        assert(l =~= seq!['-']);
                        assert(rest[1] == ' ');
                        assert(chars@.subrange(i as int, n as int) =~= rest.skip(2));
                        assert(l.take(0) =~= Seq::<char>::empty());
                    }
                }
                break;
            } else if c == 'K' {
                board.castle_kingside = [true, board.castle_kingside[1]];
            } else if c == 'k' {
                board.castle_kingside = [board.castle_kingside[0], true];
            } else if c == 'Q' {
                board.castle_queenside = [true, board.castle_queenside[1]];
            } else if c == 'q' {
                board.castle_queenside = [board.castle_queenside[0], true];
            } else {
                proof {
                    assert forall|b: Board| b.fen_readable() && #[trigger] b.fen_text() == text implies {
                        &&& chars@.subrange(i as int, n as int) == b.en_passant_rest()
                        &&& board.castle_kingside == b.castle_kingside
                        &&& board.castle_queenside == b.castle_queenside
                    } by {
                        lemma_castling_letters(b);
                        let l = b.castling_text();
                        let k = i0 - i_c;
                        let rest = chars@.subrange(i_c as int, n as int);
                        assert(rest[k] == c);
                        if k < l.len() {
                            assert(rest[k] == l[k]);
                            if !b.any_castling() {
                                assert(l[0] == '-');
                            }
                        }
                        assert(k == l.len());
                        assert(l.take(k) =~= l);
                        assert(chars@.subrange(i as int, n as int) =~= rest.skip(k + 1));
                        assert(b.any_castling());
                    }
                }
                break;
            }
            proof {
                assert forall|b: Board| b.fen_readable() && #[trigger] b.fen_text() == text implies {
                    let l = b.castling_text();
                    &&& i - i_c <= l.len()
                    &&& (!b.any_castling() ==> i == i_c)
                    &&& rights_named(l.take(i - i_c), board.castle_kingside, board.castle_queenside)
                } by {
                    lemma_castling_letters(b);
                    let l = b.castling_text();
                    let k = i0 - i_c;
                    let rest = chars@.subrange(i_c as int, n as int);
                    assert(rest[k] == c);
                    if k >= l.len() {
                        assert(rest[k] == ' ');
                    }
                    if !b.any_castling() {
                        assert(rest[0] == '-');
                    }
                    assert(rest[k] == l[k]);
                    lemma_take_contains(l, k, 'K');
                    lemma_take_contains(l, k, 'k');
                    lemma_take_contains(l, k, 'Q');
                    lemma_take_contains(l, k, 'q');
                }
            }
        }

        board.en_passant = Bitboard::new();
        let ghost i_e = i;
        let ghost ks = board.castle_kingside;
        let ghost qs = board.castle_queenside;
        while i < n
            invariant_except_break
                forall|b: Board| b.fen_readable() && #[trigger] b.fen_text() == text ==> {
                    ||| i == i_e && board.en_passant.bitboard == 0
                    ||| i == i_e + 2 && b.en_passant.bitboard != 0 && board.en_passant.bitboard
                        == b.en_passant.bitboard
                },
            invariant
                board.history@.len() == 0,
                i_e <= i <= n,
                n == chars@.len(),
                text == chars@,
                board.same_pieces(b_placed),
                b_placed.wf(),
                board.current_color == color,
                board.castle_kingside == ks,
                board.castle_queenside == qs,
                forall|b: Board| b.fen_readable() && #[trigger] b.fen_text() == text ==> {
                    &&& chars@.subrange(i_e as int, n as int) == b.en_passant_rest()
                    &&& b.current_color == color
                    &&& ks == b.castle_kingside
                    &&& qs == b.castle_queenside
                    &&& forall|s: int, q: int| 0 <= s < 2 && 0 <= q < 64 ==> #[trigger] board.pieces[s][q] == b.pieces[s][q]
                },
            ensures
                i <= n,
                n == chars@.len(),
                text == chars@,
                board.same_pieces(b_placed),
                b_placed.wf(),
                board.current_color == color,
                board.castle_kingside == ks,
                board.castle_queenside == qs,
                forall|b: Board| b.fen_readable() && #[trigger] b.fen_text() == text ==> {
                    &&& chars@.subrange(i as int, n as int) == b.clocks_rest()
                    &&& b.current_color == color
                    &&& ks == b.castle_kingside
                    &&& qs == b.castle_queenside
                    &&& board.en_passant.bitboard == b.en_passant.bitboard
                    &&& forall|s: int, q: int| 0 <= s < 2 && 0 <= q < 64 ==> #[trigger] board.pieces[s][q] == b.pieces[s][q]
                },
            decreases n - i,
        {
            let ghost i0 = i;
            let ghost ep0 = board.en_passant;
            let c = chars[i];
            if c == '-' {
                i = i + 1;
                if i < n {
                    i = i + 1;
                }
                proof {
                    assert forall|b: Board| b.fen_readable() && #[trigger] b.fen_text() == text implies {
                        &&& chars@.subrange(i as int, n as int) == b.clocks_rest()
                        &&& board.en_passant.bitboard == b.en_passant.bitboard
                    } by {
                        let rest = chars@.subrange(i_e as int, n as int);
                        assert(rest[i0 - i_e] == c);
                        if i0 == i_e + 2 {
                            assert(rest[2] == ' ');
                        }
                        if b.en_passant.bitboard != 0 {
                            let t = vstd::std_specs::bits::u64_trailing_zeros(b.en_passant.bitboard) as int;
                            crate::types::bitboard::lemma_lowest(b.en_passant.bitboard);
                            assert(rest[0] == square_name(t)[0]);
                        }
                        assert(rest[1] == ' ');
                        assert(chars@.subrange(i as int, n as int) =~= rest.skip(2));
                    }
                }
                break;
            } else if c == ' ' {
                i = i + 1;
                proof {
                    assert forall|b: Board| b.fen_readable() && #[trigger] b.fen_text() == text implies {
                        &&& chars@.subrange(i as int, n as int) == b.clocks_rest()
                        &&& board.en_passant.bitboard == b.en_passant.bitboard
                    } by {
                        let rest = chars@.subrange(i_e as int, n as int);
                        assert(rest[i0 - i_e] == c);
                        if i0 == i_e {
                            if b.en_passant.bitboard != 0 {
                                let t = vstd::std_specs::bits::u64_trailing_zeros(b.en_passant.bitboard) as int;
                                crate::types::bitboard::lemma_lowest(b.en_passant.bitboard);
                                assert(rest[0] == square_name(t)[0]);
                            } else {
                                assert(rest[0] == '-');
                            }
                        }
                        assert(chars@.subrange(i as int, n as int) =~= rest.skip(3));
                    }
                }
                break;
            } else if n - i >= 2 && starts_with_square_chars(&chars, i) {
                let idx = crate::util::chars_to_idx(&chars, i);
                board.en_passant = Bitboard::from_square(Square::from_index(idx));
                i = i + 2;
                proof {
                    assert forall|b: Board| b.fen_readable() && #[trigger] b.fen_text() == text implies {
                        ||| i == i_e && board.en_passant.bitboard == 0
                        ||| i == i_e + 2 && b.en_passant.bitboard != 0 && board.en_passant.bitboard
                            == b.en_passant.bitboard
                    } by {
                        let rest = chars@.subrange(i_e as int, n as int);
                        assert(rest[i0 - i_e] == c);
                        if i0 == i_e + 2 {
                            assert(rest[2] == ' ');
                            assert(false);
                        }
                        if b.en_passant.bitboard == 0 {
                            assert(rest[0] == '-');
                            assert(false);
                        }
                        let t = vstd::std_specs::bits::u64_trailing_zeros(b.en_passant.bitboard) as int;
                        crate::types::bitboard::lemma_lowest(b.en_passant.bitboard);
                        crate::util::lemma_square_name_roundtrip(t);
                        assert(chars@.subrange(i0 as int, chars@.len() as int).subrange(0, 2) =~= square_name(t));
                        assert(chars@.subrange(i0 as int, chars@.len() as int) =~= square_name(t) + chars@.subrange(i0 + 2, chars@.len() as int));
                    }
                }
            } else {
                proof {
                    assert forall|b: Board| b.fen_readable() && #[trigger] b.fen_text() == text implies false by {
                        let rest = chars@.subrange(i_e as int, n as int);
                        assert(rest[i0 - i_e] == c);
                        if i0 == i_e + 2 {
                            assert(rest[2] == ' ');
                        } else if b.en_passant.bitboard == 0 {
                            assert(rest[0] == '-');
                        } else {
                            let t = vstd::std_specs::bits::u64_trailing_zeros(b.en_passant.bitboard) as int;
                            crate::types::bitboard::lemma_lowest(b.en_passant.bitboard);
                            crate::util::lemma_square_name_roundtrip(t);
                            assert(rest[1] == square_name(t)[1]);
                            assert(rest[2] == ' ');
                            assert(chars@.subrange(i0 as int, chars@.len() as int)[0] == square_name(t)[0]);
                            assert(chars@.subrange(i0 as int, chars@.len() as int)[1] == square_name(t)[1]);
                        }
                    }
                }
                break;
            }
        }

        board.half_moves_clock = 0;
        let ghost i_h = i;
        let ghost ep = board.en_passant;
        while i < n
            invariant_except_break
                forall|b: Board| b.fen_readable() && #[trigger] b.fen_text() == text ==> {
                    let d = decimal(b.half_moves_clock as nat);
                    &&& i - i_h <= d.len()
                    &&& board.half_moves_clock == digits_number(d.take(i - i_h))
                },
            invariant
                board.history@.len() == 0,
                i_h <= i <= n,
                n == chars@.len(),
                text == chars@,
                board.same_pieces(b_placed),
                b_placed.wf(),
                board.current_color == color,
                board.castle_kingside == ks,
                board.castle_queenside == qs,
                board.en_passant == ep,
                forall|b: Board| b.fen_readable() && #[trigger] b.fen_text() == text ==> {
                    &&& chars@.subrange(i_h as int, n as int) == b.clocks_rest()
                    &&& b.current_color == color
                    &&& ks == b.castle_kingside
                    &&& qs == b.castle_queenside
                    &&& ep.bitboard == b.en_passant.bitboard
                    &&& forall|s: int, q: int| 0 <= s < 2 && 0 <= q < 64 ==> #[trigger] board.pieces[s][q] == b.pieces[s][q]
                },
            ensures
                i <= n,
                n == chars@.len(),
                text == chars@,
                board.same_pieces(b_placed),
                b_placed.wf(),
                board.current_color == color,
                board.castle_kingside == ks,
                board.castle_queenside == qs,
                board.en_passant == ep,
                forall|b: Board| b.fen_readable() && #[trigger] b.fen_text() == text ==> {
                    &&& chars@.subrange(i as int, n as int) == decimal(b.full_moves_count as nat)
                    &&& b.current_color == color
                    &&& ks == b.castle_kingside
                    &&& qs == b.castle_queenside
                    &&& ep.bitboard == b.en_passant.bitboard
                    &&& board.half_moves_clock == b.half_moves_clock
                    &&& forall|s: int, q: int| 0 <= s < 2 && 0 <= q < 64 ==> #[trigger] board.pieces[s][q] == b.pieces[s][q]
                },
            decreases n - i,
        {
            let ghost i0 = i;
            let ghost h0 = board.half_moves_clock;
            let c = chars[i];
            i = i + 1;
            match digit_value(c) {
                Some(d) => {
                    if board.half_moves_clock <= (u32::MAX - d) / 10 {
                        board.half_moves_clock = board.half_moves_clock * 10 + d;
                        proof {
                            assert forall|b: Board| b.fen_readable() && #[trigger] b.fen_text() == text implies {
                                let dd = decimal(b.half_moves_clock as nat);
                                &&& i - i_h <= dd.len()
                                &&& board.half_moves_clock == digits_number(dd.take(i - i_h))
                            } by {
                                let dd = decimal(b.half_moves_clock as nat);
                                let k = i0 - i_h;
                                let rest = chars@.subrange(i_h as int, n as int);
                                assert(rest[k] == c);
                                lemma_decimal(b.half_moves_clock as nat);
                                lemma_digit_char(d as int);
                                if k >= dd.len() {
                                    assert(rest[k] == ' ');
                                }
                                assert(rest[k] == dd[k]);
                                assert(dd.take(k + 1).drop_last() =~= dd.take(k));
                                assert(dd.take(k + 1).last() == c);
                            }
                        }
                    } else {
                        proof {
                            assert forall|b: Board| b.fen_readable() && #[trigger] b.fen_text() == text implies false by {
                                let dd = decimal(b.half_moves_clock as nat);
                                let k = i0 - i_h;
                                let rest = chars@.subrange(i_h as int, n as int);
                                assert(rest[k] == c);
                                lemma_decimal(b.half_moves_clock as nat);
                                lemma_digit_char(d as int);
                                if k >= dd.len() {
                                    assert(rest[k] == ' ');
                                }
                                assert(rest[k] == dd[k]);
                                assert(dd.take(k + 1).drop_last() =~= dd.take(k));
                                assert(dd.take(k + 1).last() == c);
                                assert forall|j: int| 0 <= j < dd.len() implies 48 <= #[trigger] dd[j] as u32 <= 57 by {
                                    let e = choose|e: int| 0 <= e < 10 && dd[j] == digit_char(e);
                                    lemma_digit_char(e);
                                }
                                lemma_digits_prefix(dd, k + 1);
                            }
                        }
                        break;
                    }
                },
                None => {
                    proof {
                        assert forall|b: Board| b.fen_readable() && #[trigger] b.fen_text() == text implies {
                            &&& chars@.subrange(i as int, n as int) == decimal(b.full_moves_count as nat)
                            &&& board.half_moves_clock == b.half_moves_clock
                        } by {
                            let dd = decimal(b.half_moves_clock as nat);
                            let k = i0 - i_h;
                            let rest = chars@.subrange(i_h as int, n as int);
                            assert(rest[k] == c);
                            lemma_decimal(b.half_moves_clock as nat);
                            if k < dd.len() {
                                assert(rest[k] == dd[k]);
                                let e = choose|e: int| 0 <= e < 10 && dd[k] == digit_char(e);
                                assert(false);
                            }
                            assert(dd.take(k) =~= dd);
                            assert(chars@.subrange(i as int, n as int) =~= rest.skip(k + 1));
                        }
                    }
                    break;
                },
            }
        }

        board.full_moves_count = 0;
        let ghost i_f = i;
        let ghost half = board.half_moves_clock;
        while i < n
            invariant_except_break
                forall|b: Board| b.fen_readable() && #[trigger] b.fen_text() == text ==> {
                    let d = decimal(b.full_moves_count as nat);
                    &&& i - i_f <= d.len()
                    &&& board.full_moves_count == digits_number(d.take(i - i_f))
                },
            invariant
                board.history@.len() == 0,
                i_f <= i <= n,
                n == chars@.len(),
                text == chars@,
                board.same_pieces(b_placed),
                b_placed.wf(),
                board.current_color == color,
                board.castle_kingside == ks,
                board.castle_queenside == qs,
                board.en_passant == ep,
                board.half_moves_clock == half,
                text == fen@,
                forall|b: Board| b.fen_readable() && #[trigger] b.fen_text() == text ==> {
                    &&& chars@.subrange(i_f as int, n as int) == decimal(b.full_moves_count as nat)
                    &&& b.current_color == color
                    &&& ks == b.castle_kingside
                    &&& qs == b.castle_queenside
                    &&& ep.bitboard == b.en_passant.bitboard
                    &&& half == b.half_moves_clock
                    &&& forall|s: int, q: int| 0 <= s < 2 && 0 <= q < 64 ==> #[trigger] board.pieces[s][q] == b.pieces[s][q]
                },
            ensures
                board.same_pieces(b_placed),
                b_placed.wf(),
                board.current_color == color,
                board.castle_kingside == ks,
                board.castle_queenside == qs,
                board.en_passant == ep,
                board.half_moves_clock == half,
                text == fen@,
                forall|b: Board| b.fen_readable() && #[trigger] b.fen_text() == text ==> {
                    let d = decimal(b.full_moves_count as nat);
                    &&& i - i_f == d.len()
                    &&& board.full_moves_count == digits_number(d.take(i - i_f))
                    &&& b.current_color == color
                    &&& ks == b.castle_kingside
                    &&& qs == b.castle_queenside
                    &&& ep.bitboard == b.en_passant.bitboard
                    &&& half == b.half_moves_clock
                    &&& forall|s: int, q: int| 0 <= s < 2 && 0 <= q < 64 ==> #[trigger] board.pieces[s][q] == b.pieces[s][q]
                },
            decreases n - i,
        {
            let ghost i0 = i;
            let c = chars[i];
            i = i + 1;
            match digit_value(c) {
                Some(d) => {
                    if board.full_moves_count <= (u32::MAX - d) / 10 {
                        board.full_moves_count = board.full_moves_count * 10 + d;
                        proof {
                            assert forall|b: Board| b.fen_readable() && #[trigger] b.fen_text() == text implies {
                                let dd = decimal(b.full_moves_count as nat);
                                &&& i - i_f <= dd.len()
                                &&& board.full_moves_count == digits_number(dd.take(i - i_f))
                            } by {
                                let dd = decimal(b.full_moves_count as nat);
                                let k = i0 - i_f;
                                let rest = chars@.subrange(i_f as int, n as int);
                                assert(rest[k] == c);
                                assert(rest[k] == dd[k]);
                                assert(dd.take(k + 1).drop_last() =~= dd.take(k));
                                assert(dd.take(k + 1).last() == c);
                                lemma_digit_char(d as int);
                            }
                        }
                    } else {
                        proof {
                            assert forall|b: Board| b.fen_readable() && #[trigger] b.fen_text() == text implies false by {
                                let dd = decimal(b.full_moves_count as nat);
                                let k = i0 - i_f;
                                let rest = chars@.subrange(i_f as int, n as int);
                                assert(rest[k] == c);
                                lemma_decimal(b.full_moves_count as nat);
                                lemma_digit_char(d as int);
                                assert(rest[k] == dd[k]);
                                assert(dd.take(k + 1).drop_last() =~= dd.take(k));
                                assert(dd.take(k + 1).last() == c);
                                assert forall|j: int| 0 <= j < dd.len() implies 48 <= #[trigger] dd[j] as u32 <= 57 by {
                                    let e = choose|e: int| 0 <= e < 10 && dd[j] == digit_char(e);
                                    lemma_digit_char(e);
                                }
                                lemma_digits_prefix(dd, k + 1);
                            }
                        }
                        break;
                    }
                },
                None => {
                    proof {
                        assert forall|b: Board| b.fen_readable() && #[trigger] b.fen_text() == text implies false by {
                            let dd = decimal(b.full_moves_count as nat);
                            let k = i0 - i_f;
                            let rest = chars@.subrange(i_f as int, n as int);
                            assert(rest[k] == c);
                            lemma_decimal(b.full_moves_count as nat);
                            assert(rest[k] == dd[k]);
                            let e = choose|e: int| 0 <= e < 10 && dd[k] == digit_char(e);
                        }
                    }
                    break;
                },
            }
        }
        proof {
            assert forall|b: Board| b.fen_readable() && #[trigger] b.fen_text() == fen@ implies board.reads_back(b) by {
                let dd = decimal(b.full_moves_count as nat);
                lemma_decimal(b.full_moves_count as nat);
                assert(dd.take(i - i_f) =~= dd);
            }
            crate::board::make::lemma_wf_keep(b_placed, board);
        }
        let ghost before_hash = board;
        board.update_hash();
        proof {
            crate::board::make::lemma_wf_keep(b_placed, board);
        }
        board
    }
}

/// Whether `s[at]`, `s[at + 1]` name a square.
fn starts_with_square_chars(s: &Vec<char>, at: usize) -> (r: bool)
    requires
        at + 2 <= s@.len(),
    ensures
        r == starts_with_square(s@.subrange(at as int, s@.len() as int)),
{
    let n = s.len();
    let f = s[at];
    let next = at + 1;
    let k = s[next];
    let r = (f == 'a' || f == 'b' || f == 'c' || f == 'd' || f == 'e' || f == 'f' || f == 'g' || f
        == 'h') && (k == '1' || k == '2' || k == '3' || k == '4' || k == '5' || k == '6' || k == '7'
        || k == '8');
    assert(s@.subrange(at as int, s@.len() as int)[0] == f);
    assert(s@.subrange(at as int, s@.len() as int)[1] == k);
    r
}

impl FenConsumer for Board {
    fn from_fen(fen: &str) -> Board {
        Board::from_fen(fen)
    }
}

impl FenProducer for Board {
    fn export_fen(&self) -> String {
        Board::export_fen(self)
    }
}

} // verus!
