//! What is read from a file, once it is there as a text: its lines.

use crate::text::{split, split_on, texts};
use vstd::prelude::*;

pub mod schema_file_reader;

verus! {

/// The lines of a text: its pieces between line feeds, in order. A text
/// that ends in a line feed has an empty last line.
pub open spec fn lines_of(text: Seq<char>) -> Seq<Seq<char>> {
    split(text, '\n')
}

/// The lines of `text`, in order.
pub fn lines_from_text<'a>(text: &'a str) -> (lines: Vec<&'a str>)
    ensures
        texts(lines@) == lines_of(text@),
        lines.len() > 0,
{
    split_on(text, '\n')
}

} // verus!
