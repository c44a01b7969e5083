//! The lines of a text.
use crate::text::{first_occurrence, occurs_at};
use vstd::prelude::*;

verus! {

/// The line feed, as a pattern of one character.
pub open spec fn line_feed() -> Seq<char> {
    seq!['\n']
}

/// `line` without the carriage return that ends it, if one does.
pub open spec fn without_carriage_return(line: Seq<char>) -> Seq<char> {
    if line.len() > 0 && line.last() == '\r' {
        line.drop_last()
    } else {
        line
    }
}

/// The lines of `text`. A line ends at a line feed, or at a carriage return
/// directly followed by one; neither belongs to the line. What follows the
/// last line feed is a line of its own unless it is empty, and it keeps a
/// carriage return at its end. The empty text has no line.
pub open spec fn lines_of(text: Seq<char>) -> Seq<Seq<char>>
    decreases text.len(),
{
    let at = first_occurrence(text, line_feed());
    if text.len() == 0 {
        Seq::empty()
    } else if occurs_at(text, line_feed(), at) {
        seq![without_carriage_return(text.take(at))] + lines_of(text.skip(at + 1))
    } else {
        seq![text]
    }
}

} // verus!
