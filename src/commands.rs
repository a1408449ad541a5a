//! The commands a player types during a game: `place row column`, `pass`, `resign`, `quit`.

use vstd::prelude::*;
use crate::text::{
    chars_of, nat_text, parse_count, push_char, push_chars, push_decimal, read_count, split_chars,
    split_on, views,
};

verus! {

#[derive(Debug, Clone, Copy, PartialEq, Eq, Structural)]
pub enum Command {
    PlaceStone(usize, usize),
    Resign,
    Pass,
    Quit,
}

pub open spec fn place_word() -> Seq<char> {
    seq!['p', 'l', 'a', 'c', 'e']
}

pub open spec fn pass_word() -> Seq<char> {
    seq!['p', 'a', 's', 's']
}

pub open spec fn resign_word() -> Seq<char> {
    seq!['r', 'e', 's', 'i', 'g', 'n']
}

pub open spec fn quit_word() -> Seq<char> {
    seq!['q', 'u', 'i', 't']
}

/// A board coordinate as text: a number as `parse_count` reads it, that fits in `usize`.
pub open spec fn parse_index(s: Seq<char>) -> Option<usize> {
    match parse_count(s) {
        Some(n) => if n <= usize::MAX { Some(n as usize) } else { None },
        None => None,
    }
}

/// The command that a line writes. The words are separated by single spaces; words after
/// those a command needs are ignored.
pub open spec fn parse_command(s: Seq<char>) -> Option<Command> {
    let ws = split_on(s, ' ');
    let w0 = ws[0];
    if w0 == place_word() {
        if ws.len() >= 3 && parse_index(ws[1]) is Some && parse_index(ws[2]) is Some {
            Some(Command::PlaceStone(parse_index(ws[1])->Some_0, parse_index(ws[2])->Some_0))
        } else {
            None
        }
    } else if w0 == pass_word() {
        Some(Command::Pass)
    } else if w0 == resign_word() {
        Some(Command::Resign)
    } else if w0 == quit_word() {
        Some(Command::Quit)
    } else {
        None
    }
}

pub open spec fn command_text(c: Command) -> Seq<char> {
    match c {
        Command::PlaceStone(r, col) => place_word() + seq![' '] + nat_text(r as nat) + seq![' '] + nat_text(col as nat),
        Command::Resign => resign_word(),
        Command::Pass => pass_word(),
        Command::Quit => quit_word(),
    }
}

fn same_word(a: &Vec<char>, b: &Vec<char>) -> (r: bool)
    ensures
        r == (a@ == b@),
{
    if a.len() != b.len() {
        return false;
    }
    let mut i: usize = 0;
    while i < a.len()
        invariant
            a@.len() == b@.len(),
            i <= a@.len(),
            forall|k: int| 0 <= k < i ==> a@[k] == b@[k],
        decreases a@.len() - i,
    {
        if a[i] != b[i] {
            return false;
        }
        i = i + 1;
    }
    assert(a@ =~= b@);
    true
}

fn read_index(s: &Vec<char>) -> (r: Option<usize>)
    ensures
        r == parse_index(s@),
{
    assert(s@.subrange(0, s@.len() as int) =~= s@);
    match read_count(s, 0) {
        Some(n) => {
            if n <= usize::MAX as u64 {
                Some(n as usize)
            } else {
                None
            }
        },
        None => None,
    }
}

impl Command {
    /// Reads a command from a line.
    pub fn from_str(s: &str) -> (r: Result<Command, ()>)
        ensures
            parse_command(s@) is Some ==> r == Ok::<Command, ()>(parse_command(s@)->Some_0),
            parse_command(s@) is None ==> r is Err,
    {
        let cs = chars_of(s);
        let parts = split_chars(&cs, ' ');
        proof {
            crate::text::lemma_split_on_nonempty(s@, ' ');
            assert(views(parts@)[0] == parts@[0]@);
        }
        let first = &parts[0];
        let place: Vec<char> = vec!['p', 'l', 'a', 'c', 'e'];
        let pass: Vec<char> = vec!['p', 'a', 's', 's'];
        let resign: Vec<char> = vec!['r', 'e', 's', 'i', 'g', 'n'];
        let quit: Vec<char> = vec!['q', 'u', 'i', 't'];
        if same_word(first, &place) {
            if parts.len() >= 3 {
                proof {
                    assert(views(parts@)[1] == parts@[1]@);
                    assert(views(parts@)[2] == parts@[2]@);
                }
                match (read_index(&parts[1]), read_index(&parts[2])) {
                    (Some(row), Some(col)) => Ok(Command::PlaceStone(row, col)),
                    _ => Err(()),
                }
            } else {
                Err(())
            }
        } else if same_word(first, &pass) {
            Ok(Command::Pass)
        } else if same_word(first, &resign) {
            Ok(Command::Resign)
        } else if same_word(first, &quit) {
            Ok(Command::Quit)
        } else {
            Err(())
        }
    }

    /// The command as the text that `from_str` reads.
    pub fn to_text(&self) -> (r: String)
        ensures
            r@ == command_text(*self),
    {
        let mut out = String::new();
        match *self {
            Command::PlaceStone(row, col) => {
                let word: Vec<char> = vec!['p', 'l', 'a', 'c', 'e', ' '];
                push_chars(&mut out, &word);
                push_decimal(&mut out, row as u64);
                push_char(&mut out, ' ');
                push_decimal(&mut out, col as u64);
                proof {
                    assert(out@ =~= command_text(*self));
                }
            },
            Command::Resign => {
                let word: Vec<char> = vec!['r', 'e', 's', 'i', 'g', 'n'];
                push_chars(&mut out, &word);
                assert(out@ =~= command_text(*self));
            },
            Command::Pass => {
                let word: Vec<char> = vec!['p', 'a', 's', 's'];
                push_chars(&mut out, &word);
                assert(out@ =~= command_text(*self));
            },
            Command::Quit => {
                let word: Vec<char> = vec!['q', 'u', 'i', 't'];
                push_chars(&mut out, &word);
                assert(out@ =~= command_text(*self));
            },
        }
        out
    }
}

} // verus!
