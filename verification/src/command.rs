//! The commands that the program reads, one per line.

use vstd::prelude::*;

use crate::text::{trim_end, trimmed_end};
use crate::unicode::{chars_of, lowercase_of, same_chars, string_from_chars, to_lowercase};

verus! {

/// A command of the program.
#[derive(Clone, Copy, Debug, PartialEq, Eq, Structural)]
pub enum Command {
    /// Crawl pages from a link.
    Crawl,
    /// Answer a query over the stored pages.
    Query,
    /// Look at the stemmed pages.
    TfIdf,
    /// Anything else.
    Unknown,
}

/// The text of a command line: without its trailing white space, in lower case.
pub open spec fn command_text_of(line: Seq<char>) -> Seq<char> {
    lowercase_of(trim_end(line))
}

/// The command that the text `text` names.
pub open spec fn command_of_text(text: Seq<char>) -> Command {
    if text == seq!['c', 'r', 'a', 'w', 'l'] {
        Command::Crawl
    } else if text == seq!['q', 'u', 'e', 'r', 'y'] {
        Command::Query
    } else if text == seq!['t', 'f', '-', 'i', 'd', 'f'] {
        Command::TfIdf
    } else {
        Command::Unknown
    }
}

/// The text of the command line `line` (see `command_text_of`).
pub fn command_text(line: &str) -> (r: String)
    ensures
        r@ == command_text_of(line@),
{
    let trimmed = string_from_chars(&trimmed_end(&chars_of(line)));
    to_lowercase(trimmed.as_str())
}

/// The command that the command line `line` names.
pub fn command_of(line: &str) -> (r: Command)
    ensures
        r == command_of_text(command_text_of(line@)),
{
    let text = command_text(line);
    let t = chars_of(text.as_str());
    let crawl: Vec<char> = vec!['c', 'r', 'a', 'w', 'l'];
    let query: Vec<char> = vec!['q', 'u', 'e', 'r', 'y'];
    let tf_idf: Vec<char> = vec!['t', 'f', '-', 'i', 'd', 'f'];
    if same_chars(&t, &crawl) {
        Command::Crawl
    } else if same_chars(&t, &query) {
        Command::Query
    } else if same_chars(&t, &tf_idf) {
        Command::TfIdf
    } else {
        Command::Unknown
    }
}

} // verus!
