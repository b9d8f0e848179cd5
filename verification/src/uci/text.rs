use vstd::prelude::*;
use crate::util::push_char;

verus! {

/// A white space character in the sense of Unicode, as `char::is_whitespace`
/// and `str::trim` take it.
pub open spec fn white(c: char) -> bool {
    let v = c as u32;
    ||| 9 <= v <= 13
    ||| v == 32
    ||| v == 0x85
    ||| v == 0xA0
    ||| v == 0x1680
    ||| 0x2000 <= v <= 0x200A
    ||| v == 0x2028
    ||| v == 0x2029
    ||| v == 0x202F
    ||| v == 0x205F
    ||| v == 0x3000
}

/// Whether `c` is white space.
pub fn is_white(c: char) -> (r: bool)
    ensures
        r == white(c),
{
    let v = c as u32;
    (9 <= v && v <= 13) || v == 32 || v == 0x85 || v == 0xA0 || v == 0x1680 || (0x2000 <= v && v
        <= 0x200A) || v == 0x2028 || v == 0x2029 || v == 0x202F || v == 0x205F || v == 0x3000
}

/// `s` without its leading white space.
pub open spec fn trim_start(s: Seq<char>) -> Seq<char>
    decreases s.len(),
{
    if s.len() > 0 && white(s[0]) {
        trim_start(s.drop_first())
    } else {
        s
    }
}

/// `s` without its trailing white space.
pub open spec fn trim_end(s: Seq<char>) -> Seq<char>
    decreases s.len(),
{
    if s.len() > 0 && white(s.last()) {
        trim_end(s.drop_last())
    } else {
        s
    }
}

/// `s` without white space at either end.
pub open spec fn trim(s: Seq<char>) -> Seq<char> {
    trim_end(trim_start(s))
}

/// `s` begins with `p`.
pub open spec fn starts_with(s: Seq<char>, p: Seq<char>) -> bool {
    p.len() <= s.len() && s.subrange(0, p.len() as int) == p
}

/// The first place from `i` on where `w` occurs in `s`.
pub open spec fn find_from(s: Seq<char>, w: Seq<char>, i: nat) -> Option<nat>
    decreases s.len() - i,
{
    if i + w.len() > s.len() {
        None
    } else if s.subrange(i as int, (i + w.len()) as int) == w {
        Some(i)
    } else if i >= s.len() {
        None
    } else {
        find_from(s, w, i + 1)
    }
}

/// The first place where `w` occurs in `s`.
pub open spec fn find(s: Seq<char>, w: Seq<char>) -> Option<nat> {
    find_from(s, w, 0)
}

proof fn lemma_trim_start_bound(s: Seq<char>)
    ensures
        trim_start(s).len() <= s.len(),
    decreases s.len(),
{
    if s.len() > 0 && white(s[0]) {
        lemma_trim_start_bound(s.drop_first());
    }
}

proof fn lemma_trim_end_bound(s: Seq<char>)
    ensures
        trim_end(s).len() <= s.len(),
    decreases s.len(),
{
    if s.len() > 0 && white(s.last()) {
        lemma_trim_end_bound(s.drop_last());
    }
}

/// Trimming never lengthens, and shortens text that starts with white
/// space.
pub proof fn lemma_trim_shorter(s: Seq<char>)
    ensures
        trim(s).len() <= s.len(),
        s.len() > 0 && white(s[0]) ==> trim(s).len() < s.len(),
{
    lemma_trim_start_bound(s);
    lemma_trim_end_bound(trim_start(s));
    if s.len() > 0 && white(s[0]) {
        lemma_trim_start_bound(s.drop_first());
    }
}

/// The bounds of the text of `s[lo..hi]` without white space at either
/// end.
pub fn trim_range(s: &Vec<char>, lo: usize, hi: usize) -> (r: (usize, usize))
    requires
        lo <= hi <= s@.len(),
    ensures
        lo <= r.0 <= r.1 <= hi,
        s@.subrange(r.0 as int, r.1 as int) == trim(s@.subrange(lo as int, hi as int)),
{
    let mut i = lo;
    while i < hi && is_white(s[i])
        invariant
            lo <= i <= hi <= s@.len(),
            trim_start(s@.subrange(lo as int, hi as int)) == trim_start(
                s@.subrange(i as int, hi as int),
            ),
        decreases hi - i,
    {
        assert(s@.subrange(i as int, hi as int).drop_first() =~= s@.subrange(i + 1, hi as int));
        i = i + 1;
    }
    assert(trim_start(s@.subrange(i as int, hi as int)) == s@.subrange(i as int, hi as int));
    let mut j = hi;
    while j > i && is_white(s[j - 1])
        invariant
            lo <= i <= j <= hi <= s@.len(),
            trim_end(s@.subrange(i as int, hi as int)) == trim_end(s@.subrange(i as int, j as int)),
        decreases j - i,
    {
        assert(s@.subrange(i as int, j as int).drop_last() =~= s@.subrange(i as int, j - 1));
        j = j - 1;
    }
    (i, j)
}

/// Whether `s[lo..hi]` begins with `p`.
pub fn has_prefix(s: &Vec<char>, lo: usize, hi: usize, p: &Vec<char>) -> (r: bool)
    requires
        lo <= hi <= s@.len(),
    ensures
        r == starts_with(s@.subrange(lo as int, hi as int), p@),
{
    if p.len() > hi - lo {
        return false;
    }
    let mut k: usize = 0;
    while k < p.len()
        invariant
            p@.len() <= hi - lo,
            lo <= hi <= s@.len(),
            k <= p@.len(),
            forall|t: int| 0 <= t < k ==> s@[lo + t] == p@[t],
        decreases p@.len() - k,
    {
        if s[lo + k] != p[k] {
            assert(s@.subrange(lo as int, hi as int).subrange(0, p@.len() as int)[k as int] != p@[k as int]);
            return false;
        }
        k = k + 1;
    }
    assert(s@.subrange(lo as int, hi as int).subrange(0, p@.len() as int) =~= p@);
    true
}

/// Whether `s[lo..hi]` is `p`.
pub fn is_text(s: &Vec<char>, lo: usize, hi: usize, p: &Vec<char>) -> (r: bool)
    requires
        lo <= hi <= s@.len(),
    ensures
        r == (s@.subrange(lo as int, hi as int) == p@),
{
    if p.len() != hi - lo {
        return false;
    }
    let r = has_prefix(s, lo, hi, p);
    assert(s@.subrange(lo as int, hi as int).subrange(0, p@.len() as int) =~= s@.subrange(
        lo as int,
        hi as int,
    ));
    r
}

/// The first place in `s[lo..hi]` where `w` occurs, counted from `lo`.
pub fn find_text(s: &Vec<char>, lo: usize, hi: usize, w: &Vec<char>) -> (r: Option<usize>)
    requires
        lo <= hi <= s@.len(),
    ensures
        match r {
            Some(k) => {
                &&& find(s@.subrange(lo as int, hi as int), w@) == Some(k as nat)
                &&& k + w@.len() <= hi - lo
            },
            None => find(s@.subrange(lo as int, hi as int), w@) is None,
        },
{
    let ghost sub = s@.subrange(lo as int, hi as int);
    let n = hi - lo;
    let mut i: usize = 0;
    while i < n
        invariant
            lo <= hi <= s@.len(),
            n == hi - lo,
            sub == s@.subrange(lo as int, hi as int),
            i <= n,
            find(sub, w@) == find_from(sub, w@, i as nat),
        decreases n - i,
    {
        if w.len() > n - i {
            return None;
        }
        assert(s@.subrange((lo + i) as int, hi as int).subrange(0, w@.len() as int) =~= sub.subrange(
            i as int,
            i + w@.len(),
        ));
        if has_prefix(s, lo + i, hi, w) {
            return Some(i);
        }
        i = i + 1;
    }
    if w.len() == 0 {
        assert(sub.subrange(n as int, n as int) =~= w@);
        return Some(n);
    }
    None
}

/// The text of `s[lo..hi]`.
pub fn text_of(s: &Vec<char>, lo: usize, hi: usize) -> (r: String)
    requires
        lo <= hi <= s@.len(),
    ensures
        r@ == s@.subrange(lo as int, hi as int),
{
    let mut r = String::new();
    let mut i = lo;
    while i < hi
        invariant
            lo <= i <= hi <= s@.len(),
            r@ == s@.subrange(lo as int, i as int),
        decreases hi - i,
    {
        push_char(&mut r, s[i]);
        assert(s@.subrange(lo as int, i + 1) =~= s@.subrange(lo as int, i as int).push(s@[i as int]));
        i = i + 1;
    }
    r
}

/// A decimal digit.
pub open spec fn digit_char(c: char) -> bool {
    48 <= c as u32 <= 57
}

/// The number that the decimal digits `s` write.
pub open spec fn chars_value(s: Seq<char>) -> int
    decreases s.len(),
{
    if s.len() == 0 {
        0
    } else {
        10 * chars_value(s.drop_last()) + (s.last() as u32 - 48)
    }
}

/// The number that `s` writes as `usize::from_str` reads it: an optional
/// plus sign and decimal digits.
pub open spec fn unsigned_text(s: Seq<char>) -> Option<int> {
    let d = unsigned_digits(s);
    if d.len() > 0 && all_digit_chars(d) {
        Some(chars_value(d))
    } else {
        None
    }
}

/// `s` without the plus sign it may start with.
pub open spec fn unsigned_digits(s: Seq<char>) -> Seq<char> {
    if s.len() > 0 && s[0] == '+' {
        s.drop_first()
    } else {
        s
    }
}

/// Every character of `d` is a decimal digit.
pub open spec fn all_digit_chars(d: Seq<char>) -> bool {
    forall|i: int| 0 <= i < d.len() ==> digit_char(#[trigger] d[i])
}

/// Reads `s` as `usize::from_str` does: the number it writes, unless it
/// writes none or one too large.
pub fn parse_unsigned(s: &Vec<char>) -> (r: Option<usize>)
    ensures
        match r {
            Some(v) => unsigned_text(s@) == Some(v as int),
            None => unsigned_text(s@) is None || unsigned_text(s@)->0 > usize::MAX,
        },
{
    let n = s.len();
    let start: usize = if n > 0 && s[0] == '+' {
        1
    } else {
        0
    };
    let ghost d = s@.skip(start as int);
    assert(d =~= unsigned_digits(s@));
    if start == n {
        return None;
    }
    let mut acc: usize = 0;
    let mut over = false;
    let mut i = start;
    while i < n
        invariant
            start <= i <= n,
            n == s@.len(),
            d == s@.skip(start as int),
            d == unsigned_digits(s@),
            forall|k: int| start <= k < i ==> digit_char(#[trigger] s@[k]),
            !over ==> acc == chars_value(s@.subrange(start as int, i as int)),
            over ==> chars_value(s@.subrange(start as int, i as int)) > usize::MAX,
        decreases n - i,
    {
        let v = s[i] as u32;
        if v < 48 || v > 57 {
            assert(d[i - start] == s@[i as int]);
            assert(!digit_char(d[i - start]));
            return None;
        }
        let dv = (v - 48) as usize;
        assert(s@.subrange(start as int, i + 1).drop_last() =~= s@.subrange(start as int, i as int));
        if !over {
            if acc > (usize::MAX - dv) / 10 {
                assert(10 * acc + dv > usize::MAX) by (nonlinear_arith)
                    requires
                        acc > (usize::MAX - dv) / 10,
                        dv <= 9,
                ;
                over = true;
            } else {
                assert(10 * acc + dv <= usize::MAX) by (nonlinear_arith)
                    requires
                        acc <= (usize::MAX - dv) / 10,
                        dv <= 9,
                ;
                acc = acc * 10 + dv;
            }
        }
        i = i + 1;
    }
    assert(s@.subrange(start as int, n as int) =~= d);
    assert forall|k: int| 0 <= k < d.len() implies digit_char(#[trigger] d[k]) by {
        assert(d[k] == s@[start + k]);
    }
    if over {
        None
    } else {
        Some(acc)
    }
}

} // verus!
