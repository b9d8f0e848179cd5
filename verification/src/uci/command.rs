use vstd::prelude::*;
use crate::uci::text::{has_prefix, is_text, starts_with, text_of, trim, trim_range};
use crate::util::str_chars;

verus! {

/// A request of the interface, read from one line of input.
pub enum Command {
    Quit,
    Stop,
    Uci,
    Eval,
    IsReady,
    NewGame,
    CurrentFen,
    /// What follows `position` and a space; nothing when the keyword is
    /// not followed by a space.
    Position(Option<String>),
    /// What follows `go`, without white space at either end.
    Go(String),
    /// What follows `setoption`, without white space at either end.
    SetOption(String),
    Unknown,
}

pub open spec fn quit_word() -> Seq<char> {
    seq!['q', 'u', 'i', 't']
}

pub open spec fn stop_word() -> Seq<char> {
    seq!['s', 't', 'o', 'p']
}

pub open spec fn uci_word() -> Seq<char> {
    seq!['u', 'c', 'i']
}

pub open spec fn eval_word() -> Seq<char> {
    seq!['e', 'v', 'a', 'l']
}

pub open spec fn isready_word() -> Seq<char> {
    seq!['i', 's', 'r', 'e', 'a', 'd', 'y']
}

pub open spec fn ucinewgame_word() -> Seq<char> {
    seq!['u', 'c', 'i', 'n', 'e', 'w', 'g', 'a', 'm', 'e']
}

pub open spec fn currentfen_word() -> Seq<char> {
    seq!['c', 'u', 'r', 'r', 'e', 'n', 't', 'f', 'e', 'n']
}

pub open spec fn position_word() -> Seq<char> {
    seq!['p', 'o', 's', 'i', 't', 'i', 'o', 'n']
}

pub open spec fn go_word() -> Seq<char> {
    seq!['g', 'o']
}

pub open spec fn setoption_word() -> Seq<char> {
    seq!['s', 'e', 't', 'o', 'p', 't', 'i', 'o', 'n']
}

/// The request that the line `line` holds: the line without white space
/// at either end is one of the words of the interface, or starts with
/// `position`, `go` or `setoption`.
pub open spec fn is_command(line: Seq<char>, r: Command) -> bool {
    let t = trim(line);
    if t == quit_word() {
        r is Quit
    } else if t == stop_word() {
        r is Stop
    } else if t == uci_word() {
        r is Uci
    } else if t == eval_word() {
        r is Eval
    } else if t == isready_word() {
        r is IsReady
    } else if t == ucinewgame_word() {
        r is NewGame
    } else if t == currentfen_word() {
        r is CurrentFen
    } else if starts_with(t, position_word()) {
        r matches Command::Position(p) && if starts_with(t, position_word().push(' ')) {
            p matches Some(x) && x@ == t.skip(9)
        } else {
            p is None
        }
    } else if starts_with(t, go_word()) {
        r matches Command::Go(g) && g@ == trim(t.skip(2))
    } else if starts_with(t, setoption_word()) {
        r matches Command::SetOption(o) && o@ == trim(t.skip(9))
    } else {
        r is Unknown
    }
}

/// Reads the request on one line of input.
pub fn read_command(line: &str) -> (r: Command)
    ensures
        is_command(line@, r),
{
    let s = str_chars(line);
    let n = s.len();
    assert(s@.subrange(0, n as int) =~= line@);
    let (a, b) = trim_range(&s, 0, n);
    let ghost t = s@.subrange(a as int, b as int);
    let quit = vec!['q', 'u', 'i', 't'];
    assert(quit@ =~= quit_word());
    let stop = vec!['s', 't', 'o', 'p'];
    assert(stop@ =~= stop_word());
    let uci = vec!['u', 'c', 'i'];
    assert(uci@ =~= uci_word());
    let eval = vec!['e', 'v', 'a', 'l'];
    assert(eval@ =~= eval_word());
    let isready = vec!['i', 's', 'r', 'e', 'a', 'd', 'y'];
    assert(isready@ =~= isready_word());
    let ucinewgame = vec!['u', 'c', 'i', 'n', 'e', 'w', 'g', 'a', 'm', 'e'];
    assert(ucinewgame@ =~= ucinewgame_word());
    let currentfen = vec!['c', 'u', 'r', 'r', 'e', 'n', 't', 'f', 'e', 'n'];
    assert(currentfen@ =~= currentfen_word());
    let position = vec!['p', 'o', 's', 'i', 't', 'i', 'o', 'n'];
    assert(position@ =~= position_word());
    let position_space = vec!['p', 'o', 's', 'i', 't', 'i', 'o', 'n', ' '];
    assert(position_space@ =~= position_word().push(' '));
    let go = vec!['g', 'o'];
    assert(go@ =~= go_word());
    let setoption = vec!['s', 'e', 't', 'o', 'p', 't', 'i', 'o', 'n'];
    assert(setoption@ =~= setoption_word());
    if is_text(&s, a, b, &quit) {
        Command::Quit
    } else if is_text(&s, a, b, &stop) {
        Command::Stop
    } else if is_text(&s, a, b, &uci) {
        Command::Uci
    } else if is_text(&s, a, b, &eval) {
        Command::Eval
    } else if is_text(&s, a, b, &isready) {
        Command::IsReady
    } else if is_text(&s, a, b, &ucinewgame) {
        Command::NewGame
    } else if is_text(&s, a, b, &currentfen) {
        Command::CurrentFen
    } else if has_prefix(&s, a, b, &position) {
        if has_prefix(&s, a, b, &position_space) {
            assert(s@.subrange(a + 9, b as int) =~= t.skip(9));
            Command::Position(Some(text_of(&s, a + 9, b)))
        } else {
            Command::Position(None)
        }
    } else if has_prefix(&s, a, b, &go) {
        assert(s@.subrange(a + 2, b as int) =~= t.skip(2));
        let (c, d) = trim_range(&s, a + 2, b);
        Command::Go(text_of(&s, c, d))
    } else if has_prefix(&s, a, b, &setoption) {
        assert(s@.subrange(a + 9, b as int) =~= t.skip(9));
        let (c, d) = trim_range(&s, a + 9, b);
        Command::SetOption(text_of(&s, c, d))
    } else {
        Command::Unknown
    }
}

} // verus!
