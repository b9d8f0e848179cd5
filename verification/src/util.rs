use vstd::prelude::*;
use vstd::std_specs::iter::IteratorSpec;

verus! {

/// `String::push`: appends one character.
#[verifier::external_body]
pub(crate) fn push_char(s: &mut String, c: char)
    ensures
        final(s)@ == old(s)@.push(c),
{
    s.push(c);
}

/// The characters of a string, in order, in a vector.
pub(crate) fn str_chars(s: &str) -> (r: Vec<char>)
    ensures
        r@ == s@,
{
    broadcast use vstd::string::axiom_spec_iter, vstd::string::next_postcondition;
    let mut chars = s.chars();
    let mut r: Vec<char> = Vec::new();
    loop
        invariant
            r@ + IteratorSpec::remaining(&chars) == s@,
            IteratorSpec::decrease(&chars) is Some,
        ensures
            r@ == s@,
        decreases IteratorSpec::decrease(&chars)->0,
    {
        let ghost before = chars;
        match chars.next() {
            Some(c) => {
                assert(r@.push(c) + IteratorSpec::remaining(&chars) =~= r@ + IteratorSpec::remaining(&before));
                r.push(c);
            },
            None => {
                assert(IteratorSpec::remaining(&before).len() == 0);
                assert(r@ =~= s@);
                break;
            },
        }
    }
    r
}

/// Letter of a file, 'a' to 'h'.
pub open spec fn file_char(file: int) -> char {
    if file == 0 {
        'a'
    } else if file == 1 {
        'b'
    } else if file == 2 {
        'c'
    } else if file == 3 {
        'd'
    } else if file == 4 {
        'e'
    } else if file == 5 {
        'f'
    } else if file == 6 {
        'g'
    } else {
        'h'
    }
}

/// Digit of a rank, '1' to '8'.
pub open spec fn rank_char(rank: int) -> char {
    if rank == 0 {
        '1'
    } else if rank == 1 {
        '2'
    } else if rank == 2 {
        '3'
    } else if rank == 3 {
        '4'
    } else if rank == 4 {
        '5'
    } else if rank == 5 {
        '6'
    } else if rank == 6 {
        '7'
    } else {
        '8'
    }
}

/// File of a file letter, if it is one.
pub open spec fn char_file(c: char) -> Option<int> {
    if c == 'a' {
        Some(0)
    } else if c == 'b' {
        Some(1)
    } else if c == 'c' {
        Some(2)
    } else if c == 'd' {
        Some(3)
    } else if c == 'e' {
        Some(4)
    } else if c == 'f' {
        Some(5)
    } else if c == 'g' {
        Some(6)
    } else if c == 'h' {
        Some(7)
    } else {
        None
    }
}

/// Rank of a rank digit, if it is one.
pub open spec fn char_rank(c: char) -> Option<int> {
    if c == '1' {
        Some(0)
    } else if c == '2' {
        Some(1)
    } else if c == '3' {
        Some(2)
    } else if c == '4' {
        Some(3)
    } else if c == '5' {
        Some(4)
    } else if c == '6' {
        Some(5)
    } else if c == '7' {
        Some(6)
    } else if c == '8' {
        Some(7)
    } else {
        None
    }
}

/// Algebraic name of square `idx`, such as "e4".
pub open spec fn square_name(idx: int) -> Seq<char> {
    seq![file_char(idx % 8), rank_char(idx / 8)]
}

/// Whether `s` starts with a square name.
pub open spec fn starts_with_square(s: Seq<char>) -> bool {
    s.len() >= 2 && char_file(s[0]) is Some && char_rank(s[1]) is Some
}

/// Square index named by the first two characters of `s`.
pub open spec fn parsed_square(s: Seq<char>) -> int {
    char_rank(s[1])->0 * 8 + char_file(s[0])->0
}

pub fn coords_to_idx(file: usize, rank: usize) -> (r: usize)
    requires
        rank * 8 + file <= usize::MAX,
    ensures
        r == rank * 8 + file,
{
    rank * 8 + file
}

pub fn coords_to_mask(file: usize, rank: usize) -> (r: u64)
    requires
        rank * 8 + file < 64,
    ensures
        r == 1u64 << ((rank * 8 + file) as u64),
{
    1u64 << (coords_to_idx(file, rank) as u64)
}

fn file_to_char(file: usize) -> (c: char)
    requires
        file < 8,
    ensures
        c == file_char(file as int),
{
    match file {
        0 => 'a',
        1 => 'b',
        2 => 'c',
        3 => 'd',
        4 => 'e',
        5 => 'f',
        6 => 'g',
        _ => 'h',
    }
}

fn rank_to_char(rank: usize) -> (c: char)
    requires
        rank < 8,
    ensures
        c == rank_char(rank as int),
{
    match rank {
        0 => '1',
        1 => '2',
        2 => '3',
        3 => '4',
        4 => '5',
        5 => '6',
        6 => '7',
        _ => '8',
    }
}

/// Name of square `idx`.
pub fn idx_to_str(idx: usize) -> (r: String)
    requires
        idx < 64,
    ensures
        r@ == square_name(idx as int),
{
    let mut result = String::new();
    push_char(&mut result, file_to_char(idx % 8));
    push_char(&mut result, rank_to_char(idx / 8));
    result
}

/// Name of the lowest square of a nonempty mask.
pub fn mask_to_str(mask: u64) -> (r: String)
    requires
        mask != 0,
    ensures
        r@ == square_name(vstd::std_specs::bits::u64_trailing_zeros(mask) as int),
{
    proof {
        vstd::std_specs::bits::axiom_u64_trailing_zeros(mask);
    }
    idx_to_str(mask.trailing_zeros() as usize)
}

fn get_file(c: char) -> (r: usize)
    requires
        char_file(c) is Some,
    ensures
        r == char_file(c)->0,
{
    match c {
        'a' => 0,
        'b' => 1,
        'c' => 2,
        'd' => 3,
        'e' => 4,
        'f' => 5,
        'g' => 6,
        _ => 7,
    }
}

fn get_rank(c: char) -> (r: usize)
    requires
        char_rank(c) is Some,
    ensures
        r == char_rank(c)->0,
{
    match c {
        '1' => 0,
        '2' => 1,
        '3' => 2,
        '4' => 3,
        '5' => 4,
        '6' => 5,
        '7' => 6,
        _ => 7,
    }
}

/// Index of the square named at the start of `pos`, such as "e4".
pub fn str_to_idx(pos: &str) -> (r: usize)
    requires
        starts_with_square(pos@),
    ensures
        r == parsed_square(pos@),
        r < 64,
{
    let file = get_file(pos.get_char(0));
    let rank = get_rank(pos.get_char(1));
    coords_to_idx(file, rank)
}

/// Index of the square named by the characters `s[at]`, `s[at + 1]`.
pub fn chars_to_idx(s: &Vec<char>, at: usize) -> (r: usize)
    requires
        at + 2 <= s@.len(),
        starts_with_square(s@.subrange(at as int, s@.len() as int)),
    ensures
        r == parsed_square(s@.subrange(at as int, s@.len() as int)),
        r < 64,
{
    assert(s@.subrange(at as int, s@.len() as int)[1] == s@[at + 1]);
    let n = s.len();
    let file = get_file(s[at]);
    let next = at + 1;
    let rank = get_rank(s[next]);
    coords_to_idx(file, rank)
}

/// Reading a square name back gives the square.
pub proof fn lemma_square_name_roundtrip(idx: int)
    requires
        0 <= idx < 64,
    ensures
        starts_with_square(square_name(idx)),
        parsed_square(square_name(idx)) == idx,
{
}

} // verus!
