use vstd::prelude::*;
use crate::board::Board;
use crate::board::make::lemma_wf_keep;
use crate::moves_generation::generation::safe_king_step;
use crate::moves_generation::perft::{clocks_allow, perft_divide};
use crate::search::options::Options;
use crate::search::search::{SearchInfo, Searcher, TimeReport};
use crate::transpositions::transpositions::Transpositions;
use crate::types::Move;
use crate::uci::scanner::{
    after_token, ascii_text, has_token, lemma_token_progress, next_i16_token, next_i32_token,
    next_token, scan_bytes, signed_value, token_bytes, tokens, unread, ByteScanner,
};
use crate::uci::text::{has_prefix, is_text, parse_unsigned, starts_with, unsigned_text};
use crate::uci::uci::UCI;
use crate::util::str_chars;
use vstd::string::StringSliceAdditionalSpecFns;

verus! {

/// Why a `setoption` or `go` request was refused.
#[derive(Clone, Copy, PartialEq, Eq, Structural, Debug)]
pub enum RequestError {
    /// A number that the scanner could not read into its type.
    Unreadable,
    /// A keyword that needs a value ends the request.
    Missing,
    /// A value that cannot be taken.
    BadValue,
    /// The position cannot be searched: the move generator cannot read it,
    /// or its clocks cannot count the moves.
    Unplayable,
}

/// What a `setoption` request set.
pub enum OptionSet {
    Book(bool),
    /// The new size of the transposition table, in megabytes.
    Hash(usize),
    /// An option of another name, which is ignored.
    Unknown(String),
}

/// What a `go` request gave.
pub enum GoOutcome {
    /// A move path count: the count after each first move, and their sum
    /// (1 at depth 0), staying at the largest `u64`.
    Perft { depth: usize, divide: Vec<(Move, u64)>, nodes: u64 },
    /// The move found by the search, with what each iteration reported
    /// and how the time for the move was chosen from the clock.
    BestMove { best: Move, infos: Vec<SearchInfo>, time_report: Option<TimeReport> },
}

pub open spec fn name_word() -> Seq<char> {
    seq!['n', 'a', 'm', 'e']
}

pub open spec fn value_word() -> Seq<char> {
    seq!['v', 'a', 'l', 'u', 'e']
}

pub open spec fn book_word() -> Seq<char> {
    seq!['B', 'o', 'o', 'k']
}

pub open spec fn hash_word() -> Seq<char> {
    seq!['H', 'a', 's', 'h']
}

pub open spec fn true_word() -> Seq<char> {
    seq!['t', 'r', 'u', 'e']
}

pub open spec fn false_word() -> Seq<char> {
    seq!['f', 'a', 'l', 's', 'e']
}

/// The name and value that a `setoption` request sets, read from its
/// tokens from `i` on with `name` and `value` read so far: the token after
/// `name` is the name, the one after `value` the value, the last one
/// counts, other tokens are skipped. Nothing when `name` or `value` ends
/// the request.
pub open spec fn option_fields(toks: Seq<Seq<u8>>, i: nat, name: Seq<char>, value: Seq<char>) -> Option<
    (Seq<char>, Seq<char>),
>
    decreases toks.len() - i,
{
    if i >= toks.len() {
        Some((name, value))
    } else if ascii_text(toks[i as int]) == name_word() {
        if i + 1 < toks.len() {
            option_fields(toks, i + 2, ascii_text(toks[i + 1int]), value)
        } else {
            None
        }
    } else if ascii_text(toks[i as int]) == value_word() {
        if i + 1 < toks.len() {
            option_fields(toks, i + 2, name, ascii_text(toks[i + 1int]))
        } else {
            None
        }
    } else {
        option_fields(toks, i + 1, name, value)
    }
}

/// The name and value of the `setoption` request `text`.
pub open spec fn option_request(text: Seq<u8>) -> Option<(Seq<char>, Seq<char>)> {
    option_fields(tokens(text), 0, Seq::empty(), Seq::empty())
}

/// What setting option `n` to `v` answers: `Book` with `true` or
/// `false`, `Hash` with a size the engine takes, another name ignored, and
/// a value that does not fit refused.
pub open spec fn option_set(n: Seq<char>, v: Seq<char>, r: Result<OptionSet, RequestError>) -> bool {
    if n == book_word() {
        if v == true_word() {
            r matches Ok(OptionSet::Book(b)) && b
        } else if v == false_word() {
            r matches Ok(OptionSet::Book(b)) && !b
        } else {
            r == Err::<OptionSet, RequestError>(RequestError::BadValue)
        }
    } else if n == hash_word() {
        match hash_size(v) {
            Some(mb) => r matches Ok(OptionSet::Hash(x)) && x == mb,
            None => r == Err::<OptionSet, RequestError>(RequestError::BadValue),
        }
    } else {
        r matches Ok(OptionSet::Unknown(name)) && name@ == n
    }
}

/// A table size the engine takes: a positive number of megabytes whose
/// bytes can be counted.
pub open spec fn hash_size(v: Seq<char>) -> Option<int> {
    match unsigned_text(v) {
        Some(x) => if 0 < x && x * 1048576 <= usize::MAX {
            Some(x)
        } else {
            None
        },
        None => None,
    }
}

/// The word of each clock and increment a `go` request sets.
pub open spec fn infinite_word() -> Seq<char> {
    seq!['i', 'n', 'f', 'i', 'n', 'i', 't', 'e']
}

pub open spec fn depth_word() -> Seq<char> {
    seq!['d', 'e', 'p', 't', 'h']
}

pub open spec fn wtime_word() -> Seq<char> {
    seq!['w', 't', 'i', 'm', 'e']
}

pub open spec fn btime_word() -> Seq<char> {
    seq!['b', 't', 'i', 'm', 'e']
}

pub open spec fn winc_word() -> Seq<char> {
    seq!['w', 'i', 'n', 'c']
}

pub open spec fn binc_word() -> Seq<char> {
    seq!['b', 'i', 'n', 'c']
}

pub open spec fn movetime_word() -> Seq<char> {
    seq!['m', 'o', 'v', 'e', 't', 'i', 'm', 'e']
}

/// `t` writes an integer within `lo..=hi`.
pub open spec fn number_within(t: Seq<u8>, lo: int, hi: int) -> bool {
    signed_value(t) matches Some(v) && lo <= v <= hi
}

/// The limits that the tokens of a `go` request from `i` on give, starting
/// from `o`: `infinite` lifts the depth limit, `depth` sets it (or lifts
/// it at the end of the request), `wtime`, `btime`, `winc` and `binc` set
/// the clocks, `movetime` sets a fixed time (or lifts it at the end);
/// other tokens are skipped. Nothing when a number is missing or unreadable.
pub open spec fn go_fields(toks: Seq<Seq<u8>>, i: nat, o: Options) -> Option<Options>
    decreases toks.len() - i,
{
    if i >= toks.len() {
        Some(o)
    } else {
        let w = ascii_text(toks[i as int]);
        let more = i + 1 < toks.len();
        let next = toks[i + 1int];
        if w == infinite_word() {
            go_fields(toks, i + 1, Options { depth: None, ..o })
        } else if w == depth_word() {
            if !more {
                go_fields(toks, i + 1, Options { depth: None, ..o })
            } else if number_within(next, i16::MIN as int, i16::MAX as int) {
                go_fields(toks, i + 2, Options { depth: Some(signed_value(next)->0 as i16), ..o })
            } else {
                None
            }
        } else if w == movetime_word() {
            if !more {
                go_fields(toks, i + 1, Options { target_time: None, ..o })
            } else if number_within(next, i32::MIN as int, i32::MAX as int) {
                go_fields(
                    toks,
                    i + 2,
                    Options { target_time: Some(signed_value(next)->0 as i32), ..o },
                )
            } else {
                None
            }
        } else if w == wtime_word() || w == btime_word() || w == winc_word() || w == binc_word() {
            if more && number_within(next, i32::MIN as int, i32::MAX as int) {
                let v = signed_value(next)->0 as i32;
                go_fields(
                    toks,
                    i + 2,
                    if w == wtime_word() {
                        Options { white_time: v, ..o }
                    } else if w == btime_word() {
                        Options { black_time: v, ..o }
                    } else if w == winc_word() {
                        Options { white_increment: v, ..o }
                    } else {
                        Options { black_increment: v, ..o }
                    },
                )
            } else {
                None
            }
        } else {
            go_fields(toks, i + 1, o)
        }
    }
}

/// The limits a search has before a `go` request sets any.
pub open spec fn default_options() -> Options {
    Options {
        white_time: i32::MAX,
        black_time: i32::MAX,
        white_increment: 0,
        black_increment: 0,
        target_time: None,
        depth: None,
    }
}

/// The limits that the `go` request `cmd` sets.
pub open spec fn go_options(cmd: Seq<u8>) -> Option<Options> {
    go_fields(tokens(cmd), 0, default_options())
}

pub open spec fn perft_word() -> Seq<char> {
    seq!['p', 'e', 'r', 'f', 't']
}

/// The sum of the counts of a split move path count.
pub open spec fn divide_total(d: Seq<(Move, u64)>) -> int
    decreases d.len(),
{
    if d.len() == 0 {
        0
    } else {
        divide_total(d.drop_last()) + d.last().1
    }
}

/// `n`, or the largest `u64` when it is larger.
pub open spec fn saturated(n: int) -> int {
    if n > u64::MAX {
        u64::MAX as int
    } else {
        n
    }
}

/// Reading a token moves the list of the remaining tokens on by one.
proof fn lemma_tokens_step(u: Seq<u8>)
    ensures
        has_token(u) ==> tokens(u) == seq![token_bytes(u)].add(tokens(after_token(u))),
        !has_token(u) ==> tokens(u) == Seq::<Seq<u8>>::empty(),
{
}

impl UCI {
    /// Sets an option of a `setoption` request: `name` and the option's
    /// name, `value` and its value. `Book` takes `true` or `false`; `Hash`
    /// takes a number of megabytes and empties the table at that size;
    /// other names are ignored. The position is left as it is.
    pub fn setoption(&mut self, option: &str) -> (r: Result<OptionSet, RequestError>)
        requires
            old(self).wf(),
        ensures
            final(self).wf(),
            final(self).board == old(self).board,
            final(self).last_position == old(self).last_position,
            !(r matches Ok(OptionSet::Book(_))) ==> final(self).book == old(self).book,
            !(r matches Ok(OptionSet::Hash(_))) ==> final(self).transpositions == old(
                self,
            ).transpositions,
            ({
                let f = option_request(option.spec_bytes());
                match r {
                    Err(RequestError::Missing) => f is None,
                    _ => f matches Some((n, v)) && option_set(n, v, r),
                }
            }),
            r matches Ok(OptionSet::Book(b)) ==> final(self).book == b,
            r matches Ok(OptionSet::Hash(_)) ==> final(self).transpositions.is_empty_table(),
    {
        let bytes = option.as_bytes();
        let mut scanner = scan_bytes(bytes);
        let ghost toks = tokens(bytes@);
        let ghost mut i: nat = 0;
        let mut name = String::new();
        let mut value = String::new();
        let name_key = vec!['n', 'a', 'm', 'e'];
        assert(name_key@ =~= name_word());
        let value_key = vec!['v', 'a', 'l', 'u', 'e'];
        assert(value_key@ =~= value_word());
        assert(toks.skip(0) =~= toks);
        loop
            invariant
                i <= toks.len(),
                toks == tokens(bytes@),
                bytes@ == option.spec_bytes(),
                name_key@ == name_word(),
                value_key@ == value_word(),
                tokens(unread(scanner)) == toks.skip(i as int),
                option_request(bytes@) == option_fields(toks, i, name@, value@),
                *self == *old(self),
                self.wf(),
            ensures
                i == toks.len(),
                option_request(bytes@) == option_fields(toks, i, name@, value@),
            decreases unread(scanner).len(),
        {
            let ghost u = unread(scanner);
            proof {
                lemma_tokens_step(u);
            }
            match next_token(&mut scanner) {
                Err(_) => return Err(RequestError::Unreadable),
                Ok(None) => {
                    assert(toks.skip(i as int).len() == 0);
                    break;
                },
                Ok(Some(t)) => {
                    proof {
                        lemma_token_progress(u);
                        assert(toks[i as int] == toks.skip(i as int)[0]);
                        assert(toks.skip(i + 1int) =~= toks.skip(i as int).drop_first());
                    }
                    let word = str_chars(t.as_str());
                    let n = word.len();
                    assert(word@.subrange(0, n as int) =~= word@);
                    if is_text(&word, 0, n, &name_key) || is_text(&word, 0, n, &value_key) {
                        let ghost u2 = unread(scanner);
                        proof {
                            lemma_tokens_step(u2);
                        }
                        match next_token(&mut scanner) {
                            Err(_) => return Err(RequestError::Unreadable),
                            Ok(None) => {
                                assert(toks.skip(i + 1int).len() == 0);
                                return Err(RequestError::Missing);
                            },
                            Ok(Some(v)) => {
                                proof {
                                    lemma_token_progress(u2);
                                    assert(toks[i + 1int] == toks.skip(i + 1int)[0]);
                                    assert(toks.skip(i + 2int) =~= toks.skip(i + 1int).drop_first());
                                }
                                if is_text(&word, 0, n, &name_key) {
                                    name = v;
                                } else {
                                    value = v;
                                }
                                proof {
                                    i = i + 2;
                                }
                            },
                        }
                    } else {
                        proof {
                            i = i + 1;
                        }
                    }
                },
            }
        }
        self.set_named_option(name, value)
    }

    /// Sets the option `name` to `value`: `Book` takes `true` or `false`;
    /// `Hash` takes a number of megabytes and empties the table at that
    /// size; other names are ignored. The position is left as it is.
    pub fn set_named_option(&mut self, name: String, value: String) -> (r: Result<OptionSet, RequestError>)
        requires
            old(self).wf(),
        ensures
            final(self).wf(),
            final(self).board == old(self).board,
            final(self).last_position == old(self).last_position,
            !(r matches Ok(OptionSet::Book(_))) ==> final(self).book == old(self).book,
            !(r matches Ok(OptionSet::Hash(_))) ==> final(self).transpositions == old(
                self,
            ).transpositions,
            option_set(name@, value@, r),
            r matches Ok(OptionSet::Book(b)) ==> final(self).book == b,
            r matches Ok(OptionSet::Hash(_)) ==> final(self).transpositions.is_empty_table(),
    {
        let name_text = str_chars(name.as_str());
        let value_text = str_chars(value.as_str());
        let nn = name_text.len();
        let vn = value_text.len();
        assert(name_text@.subrange(0, nn as int) =~= name_text@);
        assert(value_text@.subrange(0, vn as int) =~= value_text@);
        let book = vec!['B', 'o', 'o', 'k'];
        assert(book@ =~= book_word());
        let hash = vec!['H', 'a', 's', 'h'];
        assert(hash@ =~= hash_word());
        let yes = vec!['t', 'r', 'u', 'e'];
        assert(yes@ =~= true_word());
        let no = vec!['f', 'a', 'l', 's', 'e'];
        assert(no@ =~= false_word());
        if is_text(&name_text, 0, nn, &book) {
            if is_text(&value_text, 0, vn, &yes) {
                self.book = true;
                Ok(OptionSet::Book(true))
            } else if is_text(&value_text, 0, vn, &no) {
                self.book = false;
                Ok(OptionSet::Book(false))
            } else {
                Err(RequestError::BadValue)
            }
        } else if is_text(&name_text, 0, nn, &hash) {
            match parse_unsigned(&value_text) {
                Some(mb) => {
                    if mb > 0 && mb <= usize::MAX / 1048576 {
                        self.transpositions = Transpositions::new(mb);
                        Ok(OptionSet::Hash(mb))
                    } else {
                        Err(RequestError::BadValue)
                    }
                },
                None => Err(RequestError::BadValue),
            }
        } else {
            Ok(OptionSet::Unknown(name))
        }
    }

    /// Reads the limits of a `go` request into `options`.
    pub fn parse_go_options(&self, options: &mut Options, cmd: &str) -> (r: Result<(), RequestError>)
        ensures
            r is Ok ==> go_fields(tokens(cmd.spec_bytes()), 0, *old(options)) == Some(
                *final(options),
            ),
            go_fields(tokens(cmd.spec_bytes()), 0, *old(options)) is None <==> r is Err,
            r is Err ==> r != Err::<(), RequestError>(RequestError::BadValue) && r != Err::<
                (),
                RequestError,
            >(RequestError::Unplayable),
    {
        let bytes = cmd.as_bytes();
        let mut scanner = scan_bytes(bytes);
        let ghost toks = tokens(bytes@);
        let ghost start = *options;
        let ghost mut i: nat = 0;
        let infinite = vec!['i', 'n', 'f', 'i', 'n', 'i', 't', 'e'];
        assert(infinite@ =~= infinite_word());
        let depth = vec!['d', 'e', 'p', 't', 'h'];
        assert(depth@ =~= depth_word());
        let wtime = vec!['w', 't', 'i', 'm', 'e'];
        assert(wtime@ =~= wtime_word());
        let btime = vec!['b', 't', 'i', 'm', 'e'];
        assert(btime@ =~= btime_word());
        let winc = vec!['w', 'i', 'n', 'c'];
        assert(winc@ =~= winc_word());
        let binc = vec!['b', 'i', 'n', 'c'];
        assert(binc@ =~= binc_word());
        let movetime = vec!['m', 'o', 'v', 'e', 't', 'i', 'm', 'e'];
        assert(movetime@ =~= movetime_word());
        assert(toks.skip(0) =~= toks);
        loop
            invariant
                i <= toks.len(),
                toks == tokens(bytes@),
                bytes@ == cmd.spec_bytes(),
                infinite@ == infinite_word(),
                depth@ == depth_word(),
                wtime@ == wtime_word(),
                btime@ == btime_word(),
                winc@ == winc_word(),
                binc@ == binc_word(),
                movetime@ == movetime_word(),
                tokens(unread(scanner)) == toks.skip(i as int),
                go_fields(toks, 0, start) == go_fields(toks, i, *options),
                start == *old(options),
            ensures
                i == toks.len(),
                go_fields(toks, 0, start) == go_fields(toks, i, *options),
            decreases unread(scanner).len(),
        {
            let ghost u = unread(scanner);
            proof {
                lemma_tokens_step(u);
            }
            match next_token(&mut scanner) {
                Err(_) => return Err(RequestError::Unreadable),
                Ok(None) => {
                    assert(tokens(u) == toks.skip(i as int));
                    assert(tokens(u).len() == 0);
                    assert(toks.skip(i as int).len() == 0);
                    break;
                },
                Ok(Some(t)) => {
                    proof {
                        lemma_token_progress(u);
                        assert(toks[i as int] == toks.skip(i as int)[0]);
                        assert(toks.skip(i + 1int) =~= toks.skip(i as int).drop_first());
                    }
                    let word = str_chars(t.as_str());
                    let n = word.len();
                    assert(word@.subrange(0, n as int) =~= word@);
                    let ghost u2 = unread(scanner);
                    proof {
                        lemma_tokens_step(u2);
                    }
                    if is_text(&word, 0, n, &infinite) {
                        options.depth = None;
                        proof {
                            i = i + 1;
                        }
                    } else if is_text(&word, 0, n, &depth) {
                        match next_i16_token(&mut scanner) {
                            Err(_) => {
                                proof {
                                    assert(toks[i + 1int] == toks.skip(i + 1int)[0]);
                                }
                                return Err(RequestError::Unreadable);
                            },
                            Ok(None) => {
                                assert(toks.skip(i + 1int).len() == 0);
                                options.depth = None;
                                proof {
                                    i = i + 1;
                                }
                            },
                            Ok(Some(v)) => {
                                proof {
                                    lemma_token_progress(u2);
                                    assert(toks[i + 1int] == toks.skip(i + 1int)[0]);
                                    assert(toks.skip(i + 2int) =~= toks.skip(i + 1int).drop_first());
                                }
                                options.depth = Some(v);
                                proof {
                                    i = i + 2;
                                }
                            },
                        }
                    } else if is_text(&word, 0, n, &movetime) {
                        match next_i32_token(&mut scanner) {
                            Err(_) => {
                                proof {
                                    assert(toks[i + 1int] == toks.skip(i + 1int)[0]);
                                }
                                return Err(RequestError::Unreadable);
                            },
                            Ok(None) => {
                                assert(toks.skip(i + 1int).len() == 0);
                                options.target_time = None;
                                proof {
                                    i = i + 1;
                                }
                            },
                            Ok(Some(v)) => {
                                proof {
                                    lemma_token_progress(u2);
                                    assert(toks[i + 1int] == toks.skip(i + 1int)[0]);
                                    assert(toks.skip(i + 2int) =~= toks.skip(i + 1int).drop_first());
                                }
                                options.target_time = Some(v);
                                proof {
                                    i = i + 2;
                                }
                            },
                        }
                    } else if is_text(&word, 0, n, &wtime) || is_text(&word, 0, n, &btime) || is_text(
                        &word,
                        0,
                        n,
                        &winc,
                    ) || is_text(&word, 0, n, &binc) {
                        match next_i32_token(&mut scanner) {
                            Err(_) => {
                                proof {
                                    assert(toks[i + 1int] == toks.skip(i + 1int)[0]);
                                }
                                return Err(RequestError::Unreadable);
                            },
                            Ok(None) => {
                                assert(toks.skip(i + 1int).len() == 0);
                                return Err(RequestError::Missing);
                            },
                            Ok(Some(v)) => {
                                proof {
                                    lemma_token_progress(u2);
                                    assert(toks[i + 1int] == toks.skip(i + 1int)[0]);
                                    assert(toks.skip(i + 2int) =~= toks.skip(i + 1int).drop_first());
                                }
                                if is_text(&word, 0, n, &wtime) {
                                    options.white_time = v;
                                } else if is_text(&word, 0, n, &btime) {
                                    options.black_time = v;
                                } else if is_text(&word, 0, n, &winc) {
                                    options.white_increment = v;
                                } else {
                                    options.black_increment = v;
                                }
                                proof {
                                    i = i + 2;
                                }
                            },
                        }
                    } else {
                        proof {
                            i = i + 1;
                        }
                    }
                },
            }
        }
        Ok(())
    }

    /// Answers a `go` request. `perft` and a depth counts the move paths
    /// of that length, split by the first move. Otherwise the limits of
    /// the request are read and the position is searched; the table keeps
    /// what the search stored. The position is left as it was.
    pub fn go(&mut self, cmd: &str) -> (r: Result<GoOutcome, RequestError>)
        requires
            old(self).wf(),
        ensures
            final(self).wf(),
            final(self).board.same_position(old(self).board),
            final(self).last_position == old(self).last_position,
            final(self).book == old(self).book,
            starts_with(cmd@, perft_word()) ==> match r {
                Ok(GoOutcome::Perft { depth, divide, nodes }) => {
                    &&& starts_with(cmd@, perft_word().push(' '))
                    &&& unsigned_text(cmd@.skip(6)) == Some(depth as int)
                    &&& depth == 0 ==> nodes == 1 && divide@.len() == 0
                    &&& depth > 0 ==> nodes == saturated(divide_total(divide@))
                    &&& final(self).transpositions == old(self).transpositions
                },
                Ok(GoOutcome::BestMove { .. }) => false,
                Err(RequestError::Missing) => !starts_with(cmd@, perft_word().push(' ')),
                Err(RequestError::BadValue) => {
                    &&& starts_with(cmd@, perft_word().push(' '))
                    &&& (unsigned_text(cmd@.skip(6)) is None || unsigned_text(cmd@.skip(6))->0
                        > usize::MAX)
                },
                Err(RequestError::Unplayable) => {
                    &&& starts_with(cmd@, perft_word().push(' '))
                    &&& unsigned_text(cmd@.skip(6)) matches Some(d) && d > 0 && !(old(
                        self,
                    ).board.playable() && clocks_allow(old(self).board, d))
                },
                Err(RequestError::Unreadable) => false,
            },
            !starts_with(cmd@, perft_word()) ==> match r {
                Ok(GoOutcome::BestMove { best, .. }) => {
                    &&& go_options(cmd.spec_bytes()) matches Some(o) && (o.target_time matches Some(
                        t,
                    ) ==> t >= i32::MIN + 100)
                    &&& old(self).board.playable()
                    &&& (best == Move::new_spec() || (old(self).board.accepts(best) && old(
                        self,
                    ).board.mover(best) == old(self).board.current_color))
                    &&& (exists|t: int| safe_king_step(old(self).board, t)) ==> old(self).board.accepts(best)
                        && old(self).board.mover(best) == old(self).board.current_color
                },
                Ok(GoOutcome::Perft { .. }) => false,
                Err(RequestError::Unplayable) => !old(self).board.playable(),
                Err(RequestError::BadValue) => go_options(cmd.spec_bytes()) matches Some(o) && (
                o.target_time matches Some(t) && t < i32::MIN + 100),
                Err(RequestError::Missing) => go_options(cmd.spec_bytes()) is None,
                Err(RequestError::Unreadable) => go_options(cmd.spec_bytes()) is None,
            },
            !starts_with(cmd@, perft_word()) && go_options(cmd.spec_bytes()) is None ==> r is Err,
    {
        let chars = str_chars(cmd);
        let n = chars.len();
        assert(chars@.subrange(0, n as int) =~= cmd@);
        let perft = vec!['p', 'e', 'r', 'f', 't'];
        assert(perft@ =~= perft_word());
        let perft_space = vec!['p', 'e', 'r', 'f', 't', ' '];
        assert(perft_space@ =~= perft_word().push(' '));
        if has_prefix(&chars, 0, n, &perft) {
            if !has_prefix(&chars, 0, n, &perft_space) {
                return Err(RequestError::Missing);
            }
            let mut digits: Vec<char> = Vec::new();
            let mut k: usize = 6;
            while k < n
                invariant
                    6 <= k <= n,
                    n == chars@.len(),
                    digits@ == chars@.subrange(6, k as int),
                decreases n - k,
            {
                digits.push(chars[k]);
                assert(chars@.subrange(6, k + 1) =~= chars@.subrange(6, k as int).push(chars@[k as int]));
                k = k + 1;
            }
            assert(digits@ =~= cmd@.skip(6));
            let depth = match parse_unsigned(&digits) {
                Some(d) => d,
                None => return Err(RequestError::BadValue),
            };
            if depth == 0 {
                return Ok(GoOutcome::Perft { depth, divide: Vec::new(), nodes: 1 });
            }
            if !self.board.is_playable() || depth as u64 > 4294967295 || (
            self.board.half_moves_clock as u64) + (depth as u64) > 4294967295 || (
            self.board.full_moves_count as u64) + (depth as u64) > 4294967295 {
                return Err(RequestError::Unplayable);
            }
            let ghost b0 = self.board;
            let divide = perft_divide(&mut self.board, depth);
            proof {
                lemma_wf_keep(b0, self.board);
            }
            let mut nodes: u64 = 0;
            let mut i: usize = 0;
            while i < divide.len()
                invariant
                    i <= divide@.len(),
                    nodes == saturated(divide_total(divide@.take(i as int))),
                decreases divide@.len() - i,
            {
                assert(divide@.take(i + 1).drop_last() =~= divide@.take(i as int));
                let count = divide[i].1;
                nodes = if nodes > u64::MAX - count {
                    u64::MAX
                } else {
                    nodes + count
                };
                i = i + 1;
            }
            assert(divide@.take(divide@.len() as int) =~= divide@);
            return Ok(GoOutcome::Perft { depth, divide, nodes });
        }
        let mut options = Options::new();
        assert(options == default_options());
        match self.parse_go_options(&mut options, cmd) {
            Err(e) => return Err(e),
            Ok(()) => {},
        }
        match options.target_time {
            Some(t) => {
                if t < i32::MIN + 100 {
                    return Err(RequestError::BadValue);
                }
            },
            None => {},
        }
        if !self.board.is_playable() {
            return Err(RequestError::Unplayable);
        }
        let ghost b0 = self.board;
        let mut board = Board::new();
        std::mem::swap(&mut board, &mut self.board);
        let mut table = Transpositions { length: 0, scores: Vec::new() };
        std::mem::swap(&mut table, &mut self.transpositions);
        let mut searcher = Searcher::new(board, table, self.book);
        std::mem::swap(&mut searcher.openings, &mut self.openings);
        let best = searcher.go(options);
        proof {
            lemma_wf_keep(b0, searcher.board);
        }
        let Searcher { board, transpositions, infos, time_report, openings, .. } = searcher;
        self.board = board;
        self.transpositions = transpositions;
        self.openings = openings;
        Ok(GoOutcome::BestMove { best, infos, time_report })
    }
}

} // verus!
