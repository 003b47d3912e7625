//! The commands of the interactive game.
use vstd::prelude::*;

use crate::text::{
    ascii_lower, ascii_lower_chars, chars_equal, chars_of, split_at_space, split_at_space_chars,
    string_from_chars, trim, trim_chars,
};

verus! {

/// A command typed at the prompt.
#[derive(Clone, Debug, PartialEq, Eq)]
pub enum Command {
    /// Roll one fruit.
    Draw,
    /// Show the fruits held.
    Inventory,
    /// Show the fruit pool.
    Pool,
    /// Try a DLC code; the code may be empty.
    BuyDlc(String),
    /// Show the commands.
    Help,
    /// Leave the game.
    Exit,
    /// Nothing was typed.
    Empty,
    /// A word that names no command.
    Unknown,
}

/// The command word of a typed line: the trimmed line up to its first
/// whitespace, with ASCII capitals made small.
pub open spec fn command_word(input: Seq<char>) -> Seq<char> {
    match split_at_space(trim(input)) {
        Some(parts) => ascii_lower(parts.0),
        None => ascii_lower(trim(input)),
    }
}

/// The argument of a typed line: what follows the command word's first
/// whitespace, trimmed; empty when nothing follows.
pub open spec fn command_argument(input: Seq<char>) -> Seq<char> {
    match split_at_space(trim(input)) {
        Some(parts) => trim(parts.1),
        None => Seq::empty(),
    }
}

/// The command that a typed line names.
pub open spec fn command_matches(c: Command, input: Seq<char>) -> bool {
    let word = command_word(input);
    match c {
        Command::Draw => word == "draw"@,
        Command::Inventory => word == "inventory"@,
        Command::Pool => word == "pool"@,
        Command::BuyDlc(code) => word == "buy-dlc"@ && code@ == command_argument(input),
        Command::Help => word == "help"@,
        Command::Exit => word == "exit"@ || word == "quit"@,
        Command::Empty => word.len() == 0,
        Command::Unknown => word != "draw"@ && word != "inventory"@ && word != "pool"@ && word
            != "buy-dlc"@ && word != "help"@ && word != "exit"@ && word != "quit"@ && word.len()
            > 0,
    }
}

/// Whether the characters `word` spell the literal `s`.
fn word_is(word: &[char], s: &str) -> (r: bool)
    ensures
        r == (word@ == s@),
{
    let expected = chars_of(s);
    chars_equal(word, &expected)
}

/// Reads the command of a typed line.
pub fn parse_command(input: &str) -> (r: Command)
    ensures
        command_matches(r, input@),
{
    let chars = chars_of(input);
    let trimmed = trim_chars(&chars);
    let (word, argument) = match split_at_space_chars(&trimmed) {
        Some((first, rest)) => (ascii_lower_chars(&first), trim_chars(&rest)),
        None => (ascii_lower_chars(&trimmed), Vec::new()),
    };
    assert(word@ == command_word(input@));
    assert(argument@ == command_argument(input@));
    if word_is(&word, "draw") {
        Command::Draw
    } else if word_is(&word, "inventory") {
        Command::Inventory
    } else if word_is(&word, "pool") {
        Command::Pool
    } else if word_is(&word, "buy-dlc") {
        Command::BuyDlc(string_from_chars(&argument))
    } else if word_is(&word, "help") {
        Command::Help
    } else if word_is(&word, "exit") || word_is(&word, "quit") {
        Command::Exit
    } else if word.len() == 0 {
        Command::Empty
    } else {
        Command::Unknown
    }
}

} // verus!
