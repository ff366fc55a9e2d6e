//! The mathematical model of a text: its lines, and what it means for one
//! sequence to occur inside another.
use vstd::prelude::*;

verus! {

/// Position of the first `mark` in `items`, or the length of `items` where it
/// holds none.
pub open spec fn first_index<T>(items: Seq<T>, mark: T) -> nat
    decreases items.len(),
{
    if items.len() == 0 || items[0] == mark {
        0
    } else {
        (1 + first_index(items.drop_first(), mark)) as nat
    }
}

/// Position of the first line feed of `text`, or its length where it has none.
pub open spec fn first_break(text: Seq<char>) -> nat {
    first_index(text, '\n')
}

/// `piece` without the carriage return that it may end with.
pub open spec fn without_cr(piece: Seq<char>) -> Seq<char> {
    if piece.len() > 0 && piece.last() == '\r' {
        piece.drop_last()
    } else {
        piece
    }
}

/// The first line of a text that is not empty. Where a line feed ends it, the
/// line feed is left out, and so is a carriage return directly before it. A
/// last line that no line feed ends is taken whole.
pub open spec fn first_line(text: Seq<char>) -> Seq<char> {
    let at: nat = first_break(text);
    if at < text.len() {
        without_cr(text.take(at as int))
    } else {
        text
    }
}

/// What follows the first line and its line feed.
pub open spec fn after_first_line(text: Seq<char>) -> Seq<char> {
    let at: nat = first_break(text);
    if at < text.len() {
        text.skip(at as int + 1)
    } else {
        Seq::empty()
    }
}

/// The lines of a text, in order. An empty text has no line, and a line feed
/// at the very end opens no further line.
pub open spec fn lines_of(text: Seq<char>) -> Seq<Seq<char>>
    decreases text.len(),
{
    if text.len() == 0 {
        Seq::empty()
    } else {
        seq![first_line(text)] + lines_of(after_first_line(text))
    }
}

/// `needle` stands in `hay` at position `at`.
pub open spec fn occurs_at<T>(needle: Seq<T>, hay: Seq<T>, at: int) -> bool {
    &&& 0 <= at
    &&& at + needle.len() <= hay.len()
    &&& hay.subrange(at, at + needle.len()) == needle
}

/// `needle` stands somewhere in `hay` as a contiguous run.
pub open spec fn occurs_in<T>(needle: Seq<T>, hay: Seq<T>) -> bool {
    exists|at: int| occurs_at(needle, hay, at)
}

} // verus!
