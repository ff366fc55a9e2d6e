//! Lower-case folding, as the standard library performs it on whole strings.
use vstd::prelude::*;

verus! {

/// The lower-case form of a text: the characters of the `String` that
/// `str::to_lowercase` returns for it.
pub uninterp spec fn lowercase_of(text: Seq<char>) -> Seq<char>;

/// Trusted, not proved: `str::to_lowercase` of the standard library. Its
/// result depends on the characters of the string alone and is called
/// `lowercase_of` here; the lower-case form of the empty string is empty.
/// Nothing else is assumed of it: it is the simple lower-case mapping of
/// Unicode, which may change the number of characters.
pub assume_specification[ str::to_lowercase ](text: &str) -> (lower: String)
    ensures
        lower@ == lowercase_of(text@),
        text@.len() == 0 ==> lower@.len() == 0,
;

} // verus!
