//! Splitting a text into its lines. The lines are slices of the text: nothing
//! is copied.
use vstd::prelude::*;
use crate::encoding::{
    lemma_encode_injective, lemma_encode_single, lemma_encode_split, lemma_first_break_encoded,
    lemma_last_byte, lemma_same_char, lemma_scalar_bytes, CARRIAGE_RETURN, LINE_FEED,
};
use crate::scan::{find_byte, lemma_first_index};
use crate::text::{after_first_line, first_break, first_line, lines_of, without_cr};

verus! {

/// Takes the carriage return off the end of `piece`, where it ends with one.
fn strip_cr<'a>(piece: &'a str) -> (line: &'a str)
    ensures
        line@ == without_cr(piece@),
{
    let bytes = piece.as_bytes();
    let n: usize = bytes.len();
    proof {
        if piece@.len() > 0 {
            lemma_last_byte(piece@);
        }
    }
    if n > 0 && bytes[n - 1] == CARRIAGE_RETURN {
        proof {
            lemma_same_char(piece@.last(), '\r');
            lemma_encode_split(piece@, piece@.len() - 1);
            assert(piece@.take(piece@.len() - 1) =~= piece@.drop_last());
        }
        let (line, _) = piece.split_at(n - 1);
        proof {
            lemma_encode_injective(line@, piece@.drop_last());
        }
        line
    } else {
        piece
    }
}

/// Cuts a text that is not empty into its first line and what follows that
/// line.
pub fn split_first_line<'a>(text: &'a str) -> (parts: (&'a str, &'a str))
    requires
        text@.len() > 0,
    ensures
        parts.0@ == first_line(text@),
        parts.1@ == after_first_line(text@),
{
    let bytes = text.as_bytes();
    let at: usize = find_byte(bytes, LINE_FEED);
    let ghost k: int = first_break(text@) as int;
    proof {
        lemma_first_break_encoded(text@);
        lemma_encode_split(text@, k);
    }
    let (head, tail) = text.split_at(at);
    proof {
        lemma_encode_injective(head@, text@.take(k));
        lemma_encode_injective(tail@, text@.skip(k));
    }
    if at == bytes.len() {
        proof {
            if k < text@.len() {
                lemma_last_byte(tail@);
            }
        }
        (text, tail)
    } else {
        proof {
            assert(k < text@.len()) by {
                if k == text@.len() {
                    assert(text@.take(k) =~= text@);
                }
            }
            lemma_first_index(text@, '\n');
            assert(tail@.take(1) =~= seq!['\n']);
            lemma_encode_single('\n');
            lemma_scalar_bytes('\n');
            lemma_encode_split(tail@, 1);
        }
        let (_, rest) = tail.split_at(1);
        proof {
            lemma_encode_injective(rest@, tail@.skip(1));
            assert(tail@.skip(1) =~= text@.skip(k + 1));
        }
        (strip_cr(head), rest)
    }
}

/// The lines of `contents`, in order, each a slice of `contents`.
pub fn lines<'a>(contents: &'a str) -> (all: Vec<&'a str>)
    ensures
        all.deep_view() == lines_of(contents@),
{
    let mut all: Vec<&'a str> = Vec::new();
    let mut rest: &'a str = contents;
    assert(all.deep_view() + lines_of(rest@) =~= lines_of(contents@));
    while !rest.is_empty()
        invariant
            all.deep_view() + lines_of(rest@) == lines_of(contents@),
        decreases rest@.len(),
    {
        let (line, tail) = split_first_line(rest);
        let ghost before = all.deep_view();
        all.push(line);
        proof {
            assert(all.deep_view() =~= before.push(line@));
            assert(before.push(line@) + lines_of(tail@) =~= before + lines_of(rest@));
        }
        rest = tail;
    }
    assert(all.deep_view() + lines_of(rest@) =~= all.deep_view());
    all
}

} // verus!
