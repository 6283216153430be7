//! What the command line client decides before it sends a text to be
//! stored: where the text comes from, and whether what was piped in will
//! do.

use crate::text::{is_blank, is_blank_text};
use vstd::prelude::*;

verus! {

/// Where the text to be stored comes from.
#[derive(Clone, Copy, Debug, PartialEq, Eq)]
pub enum TextSource {
    /// The text that was given on the command line.
    Argument,
    /// The file that was named.
    File,
    /// The standard input.
    Stdin,
}

/// The source of the text: the argument where it is not empty, else the
/// file where one was named, else the standard input.
pub open spec fn source_of(argument: Seq<char>, has_file: bool) -> TextSource {
    if argument.len() > 0 {
        TextSource::Argument
    } else if has_file {
        TextSource::File
    } else {
        TextSource::Stdin
    }
}

/// Tells where the text to be stored comes from.
pub fn text_source(argument: &str, has_file: bool) -> (source: TextSource)
    ensures
        source == source_of(argument@, has_file),
{
    if !argument.is_empty() {
        TextSource::Argument
    } else if has_file {
        TextSource::File
    } else {
        TextSource::Stdin
    }
}

/// Tells whether what was read from the standard input will do as a text:
/// whether it holds a character that is not white space.
pub fn accepts_piped(input: &str) -> (ok: bool)
    ensures
        ok == !is_blank_text(input@),
{
    !is_blank(input)
}

} // verus!
