use vstd::prelude::*;
use scanner_rust::ScannerAscii;
use scanner_rust::ScannerError;

verus! {

/// The token scanner of `scanner_rust`, reading ASCII text from a byte
/// slice, held in a private field that only the functions below touch.
#[verifier::external_body]
pub struct ByteScanner<'a> {
    scanner: ScannerAscii<&'a [u8]>,
}

/// The error type of `scanner_rust`.
#[verifier::external_type_specification]
#[verifier::external_body]
pub struct ExScannerError(ScannerError);

/// A byte that separates tokens: tab to carriage return, and the file,
/// group, record and unit separators and the space.
pub open spec fn separator(b: u8) -> bool {
    (9 <= b <= 13) || (28 <= b <= 32)
}

/// The number of separators that `s` starts with.
pub open spec fn leading_separators(s: Seq<u8>) -> nat
    decreases s.len(),
{
    if s.len() > 0 && separator(s[0]) {
        1 + leading_separators(s.drop_first())
    } else {
        0
    }
}

/// The number of other bytes that `s` starts with.
pub open spec fn leading_word(s: Seq<u8>) -> nat
    decreases s.len(),
{
    if s.len() > 0 && !separator(s[0]) {
        1 + leading_word(s.drop_first())
    } else {
        0
    }
}

/// `s` holds a byte other than a separator.
pub open spec fn has_token(s: Seq<u8>) -> bool {
    leading_separators(s) < s.len()
}

/// The first token of `s`: the bytes after the leading separators, up to
/// the next separator.
pub open spec fn token_bytes(s: Seq<u8>) -> Seq<u8> {
    let k = leading_separators(s) as int;
    s.subrange(k, k + leading_word(s.skip(k)))
}

/// What follows the first token of `s`.
pub open spec fn after_token(s: Seq<u8>) -> Seq<u8> {
    let k = leading_separators(s) as int;
    s.skip(k + leading_word(s.skip(k)))
}

/// The character a byte is read as: itself below 128, else the
/// replacement character.
pub open spec fn ascii_char(b: u8) -> char {
    if b < 128 {
        b as char
    } else {
        '\u{FFFD}'
    }
}

/// The text of bytes read one character per byte.
pub open spec fn ascii_text(s: Seq<u8>) -> Seq<char> {
    s.map_values(|b: u8| ascii_char(b))
}

/// The tokens of `s`, in order.
pub open spec fn tokens(s: Seq<u8>) -> Seq<Seq<u8>>
    decreases s.len(),
{
    if has_token(s) {
        proof {
            lemma_token_progress(s);
        }
        seq![token_bytes(s)].add(tokens(after_token(s)))
    } else {
        Seq::empty()
    }
}

/// Reading a token consumes at least one byte.
pub proof fn lemma_token_progress(s: Seq<u8>)
    requires
        has_token(s),
    ensures
        after_token(s).len() < s.len(),
        token_bytes(s).len() > 0,
{
    lemma_separators_bound(s);
    let k = leading_separators(s) as int;
    lemma_separators_stop(s);
    lemma_word_bound(s.skip(k));
}

proof fn lemma_separators_bound(s: Seq<u8>)
    ensures
        leading_separators(s) <= s.len(),
    decreases s.len(),
{
    if s.len() > 0 && separator(s[0]) {
        lemma_separators_bound(s.drop_first());
    }
}

proof fn lemma_word_bound(s: Seq<u8>)
    ensures
        leading_word(s) <= s.len(),
        s.len() > 0 && !separator(s[0]) ==> leading_word(s) > 0,
    decreases s.len(),
{
    if s.len() > 0 && !separator(s[0]) {
        lemma_word_bound(s.drop_first());
    }
}

/// The byte after the leading separators is no separator.
proof fn lemma_separators_stop(s: Seq<u8>)
    ensures
        leading_separators(s) < s.len() ==> !separator(s[leading_separators(s) as int]),
        forall|i: int| 0 <= i < leading_separators(s) ==> separator(#[trigger] s[i]),
    decreases s.len(),
{
    if s.len() > 0 && separator(s[0]) {
        let t = s.drop_first();
        lemma_separators_stop(t);
        lemma_separators_bound(t);
        assert forall|i: int| 0 <= i < leading_separators(s) implies separator(#[trigger] s[i]) by {
            if i > 0 {
                assert(s[i] == t[i - 1]);
            }
        }
    }
}

/// A decimal digit.
pub open spec fn digit_byte(b: u8) -> bool {
    48 <= b <= 57
}

/// The number that the decimal digits `s` write.
pub open spec fn digits_value(s: Seq<u8>) -> int
    decreases s.len(),
{
    if s.len() == 0 {
        0
    } else {
        10 * digits_value(s.drop_last()) + (s.last() - 48)
    }
}

/// `s` is a nonempty run of decimal digits.
pub open spec fn all_digits(s: Seq<u8>) -> bool {
    s.len() > 0 && forall|i: int| 0 <= i < s.len() ==> digit_byte(#[trigger] s[i])
}

/// The integer that `s` writes, an optional sign and decimal digits, as
/// `from_str` of the integer types reads it.
pub open spec fn signed_value(s: Seq<u8>) -> Option<int> {
    if s.len() > 0 && s[0] == 45 {
        if all_digits(s.drop_first()) {
            Some(-digits_value(s.drop_first()))
        } else {
            None
        }
    } else if s.len() > 0 && s[0] == 43 {
        if all_digits(s.drop_first()) {
            Some(digits_value(s.drop_first()))
        } else {
            None
        }
    } else if all_digits(s) {
        Some(digits_value(s))
    } else {
        None
    }
}

/// What a scanner has still to read.
pub uninterp spec fn unread(scanner: ByteScanner) -> Seq<u8>;

/// `ScannerAscii::new` on a byte slice: a scanner that has read none of
/// `bytes`.
#[verifier::external_body]
pub(crate) fn scan_bytes<'a>(bytes: &'a [u8]) -> (r: ByteScanner<'a>)
    ensures
        unread(r) == bytes@,
{
    ByteScanner { scanner: ScannerAscii::new(bytes) }
}

/// `ScannerAscii::next`: skips separators and reads the following token,
/// each byte as one character, bytes from 128 up as the replacement
/// character. With no token left it reads the rest and gives `None`.
/// Reading a byte slice never fails, so it never gives an error.
#[verifier::external_body]
pub(crate) fn next_token(scanner: &mut ByteScanner) -> (r: Result<Option<String>, ScannerError>)
    ensures
        match r {
            Ok(Some(t)) => {
                &&& has_token(unread(*old(scanner)))
                &&& t@ == ascii_text(token_bytes(unread(*old(scanner))))
                &&& unread(*final(scanner)) == after_token(unread(*old(scanner)))
            },
            Ok(None) => {
                &&& !has_token(unread(*old(scanner)))
                &&& unread(*final(scanner)).len() == 0
            },
            Err(_) => false,
        },
{
    scanner.scanner.next()
}

/// `ScannerAscii::next_i16`: reads the next token as `next` does and
/// parses it as an `i16`. With no token left it gives `None`. A token that
/// does not write an `i16` gives an error, and only such a token, since
/// reading a byte slice never fails; nothing is stated of what the scanner
/// then holds.
#[verifier::external_body]
pub(crate) fn next_i16_token(scanner: &mut ByteScanner) -> (r: Result<Option<i16>, ScannerError>)
    ensures
        match r {
            Ok(Some(v)) => {
                &&& has_token(unread(*old(scanner)))
                &&& signed_value(token_bytes(unread(*old(scanner)))) == Some(v as int)
                &&& unread(*final(scanner)) == after_token(unread(*old(scanner)))
            },
            Ok(None) => {
                &&& !has_token(unread(*old(scanner)))
                &&& unread(*final(scanner)).len() == 0
            },
            Err(_) => {
                &&& has_token(unread(*old(scanner)))
                &&& !(signed_value(token_bytes(unread(*old(scanner)))) matches Some(v) && i16::MIN <= v <= i16::MAX)
            },
        },
{
    scanner.scanner.next_i16()
}

/// `ScannerAscii::next_i32`: reads the next token as `next` does and
/// parses it as an `i32`. With no token left it gives `None`. A token that
/// does not write an `i32` gives an error, and only such a token, since
/// reading a byte slice never fails; nothing is stated of what the scanner
/// then holds.
#[verifier::external_body]
pub(crate) fn next_i32_token(scanner: &mut ByteScanner) -> (r: Result<Option<i32>, ScannerError>)
    ensures
        match r {
            Ok(Some(v)) => {
                &&& has_token(unread(*old(scanner)))
                &&& signed_value(token_bytes(unread(*old(scanner)))) == Some(v as int)
                &&& unread(*final(scanner)) == after_token(unread(*old(scanner)))
            },
            Ok(None) => {
                &&& !has_token(unread(*old(scanner)))
                &&& unread(*final(scanner)).len() == 0
            },
            Err(_) => {
                &&& has_token(unread(*old(scanner)))
                &&& !(signed_value(token_bytes(unread(*old(scanner)))) matches Some(v) && i32::MIN <= v <= i32::MAX)
            },
        },
{
    scanner.scanner.next_i32()
}

} // verus!
