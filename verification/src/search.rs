//! The line filter: the lines of a text that hold a query.
use vstd::prelude::*;
use vstd::utf8::*;
use crate::args::BigGrepArgs;
use crate::encoding::lemma_occurs_encoded;
use crate::folding::lowercase_of;
use crate::lines::lines;
use crate::scan::occurs;
use crate::text::{lines_of, occurs_at, occurs_in};

verus! {

/// Whether `line` holds `query`. With `case_sensitive` the characters are
/// compared as they are; without it, the lower-case forms of both are
/// compared.
pub open spec fn line_matches(query: Seq<char>, line: Seq<char>, case_sensitive: bool) -> bool {
    if case_sensitive {
        occurs_in(query, line)
    } else {
        occurs_in(lowercase_of(query), lowercase_of(line))
    }
}

/// The test that the filter puts to each line.
pub open spec fn keeps(query: Seq<char>, case_sensitive: bool) -> spec_fn(Seq<char>) -> bool {
    |line: Seq<char>| line_matches(query, line, case_sensitive)
}

/// The lines of `text` that hold `query`, in the order of the text and as
/// they stand in it.
pub open spec fn matching_lines(query: Seq<char>, text: Seq<char>, case_sensitive: bool) -> Seq<
    Seq<char>,
> {
    lines_of(text).filter(keeps(query, case_sensitive))
}

/// A filter whose test holds of every item keeps them all.
pub proof fn lemma_filter_keeps_all<T>(items: Seq<T>, test: spec_fn(T) -> bool)
    requires
        forall|i: int| 0 <= i < items.len() ==> test(#[trigger] items[i]),
    ensures
        items.filter(test) == items,
    decreases items.len(),
{
    reveal(Seq::filter);
    if items.len() > 0 {
        lemma_filter_keeps_all(items.drop_last(), test);
        assert(items.drop_last().push(items.last()) =~= items);
    }
}

/// The empty sequence occurs in every sequence.
pub proof fn lemma_empty_occurs<T>(needle: Seq<T>, hay: Seq<T>)
    requires
        needle.len() == 0,
    ensures
        occurs_in(needle, hay),
{
    assert(hay.subrange(0, 0) =~= needle);
    assert(occurs_at(needle, hay, 0));
}

/// One step of filtering from the front: the first `n + 1` items filtered
/// are the first `n` filtered, and the next item after them if it passes.
proof fn lemma_filter_next<T>(items: Seq<T>, test: spec_fn(T) -> bool, n: int)
    requires
        0 <= n < items.len(),
    ensures
        items.take(n + 1).filter(test) == if test(items[n]) {
            items.take(n).filter(test).push(items[n])
        } else {
            items.take(n).filter(test)
        },
{
    assert(items.take(n + 1) =~= items.take(n).push(items[n]));
    items.take(n).lemma_filter_push(items[n], test);
}

/// The lines of `contents` that hold `query`, compared character by
/// character. The result keeps the order of the text; each line is a slice
/// of `contents`.
pub fn search<'a>(query: &str, contents: &'a str) -> (found: Vec<&'a str>)
    ensures
        found.deep_view() == matching_lines(query@, contents@, true),
        forall|i: int| 0 <= i < found.len() ==> occurs_in(query@, #[trigger] found[i]@),
        query@.len() == 0 ==> found.deep_view() == lines_of(contents@),
{
    let all = lines(contents);
    let needle = query.as_bytes();
    let ghost test = keeps(query@, true);
    let mut found: Vec<&'a str> = Vec::new();
    let mut i: usize = 0;
    assert(all.deep_view().take(0).filter(test) =~= found.deep_view()) by {
        reveal(Seq::filter);
    }
    while i < all.len()
        invariant
            i <= all.len(),
            needle@ == encode_utf8(query@),
            test == keeps(query@, true),
            found.deep_view() == all.deep_view().take(i as int).filter(test),
        decreases all.len() - i,
    {
        let line: &'a str = all[i];
        let ghost before = found.deep_view();
        proof {
            lemma_occurs_encoded(query@, line@);
            lemma_filter_next(all.deep_view(), test, i as int);
        }
        if occurs(needle, line.as_bytes()) {
            found.push(line);
            assert(found.deep_view() =~= before.push(line@));
        }
        i += 1;
    }
    proof {
        assert(all.deep_view().take(all.len() as int) =~= all.deep_view());
        assert forall|i: int| 0 <= i < found.len() implies occurs_in(
            query@,
            #[trigger] found[i]@,
        ) by {
            lines_of(contents@).lemma_filter_pred(test, i);
            assert(found.deep_view()[i] == found[i]@);
        }
        if query@.len() == 0 {
            assert forall|i: int| 0 <= i < lines_of(contents@).len() implies test(
                #[trigger] lines_of(contents@)[i],
            ) by {
                lemma_empty_occurs(query@, lines_of(contents@)[i]);
            }
            lemma_filter_keeps_all(lines_of(contents@), test);
        }
    }
    found
}

/// The lines of `contents` whose lower-case form holds the lower-case form
/// of `query`. The result keeps the order of the text, and each line is a
/// slice of `contents`, in the letter case in which it stands there.
pub fn search_case_insensitive<'a>(query: &str, contents: &'a str) -> (found: Vec<&'a str>)
    ensures
        found.deep_view() == matching_lines(query@, contents@, false),
        forall|i: int|
            0 <= i < found.len() ==> occurs_in(
                lowercase_of(query@),
                lowercase_of(#[trigger] found[i]@),
            ),
        query@.len() == 0 ==> found.deep_view() == lines_of(contents@),
{
    let all = lines(contents);
    let folded_query = query.to_lowercase();
    let needle = folded_query.as_str().as_bytes();
    let ghost test = keeps(query@, false);
    let mut found: Vec<&'a str> = Vec::new();
    let mut i: usize = 0;
    assert(all.deep_view().take(0).filter(test) =~= found.deep_view()) by {
        reveal(Seq::filter);
    }
    while i < all.len()
        invariant
            i <= all.len(),
            needle@ == encode_utf8(lowercase_of(query@)),
            test == keeps(query@, false),
            found.deep_view() == all.deep_view().take(i as int).filter(test),
        decreases all.len() - i,
    {
        let line: &'a str = all[i];
        let folded_line = line.to_lowercase();
        let ghost before = found.deep_view();
        proof {
            lemma_occurs_encoded(lowercase_of(query@), lowercase_of(line@));
            lemma_filter_next(all.deep_view(), test, i as int);
        }
        if occurs(needle, folded_line.as_str().as_bytes()) {
            found.push(line);
            assert(found.deep_view() =~= before.push(line@));
        }
        i += 1;
    }
    proof {
        assert(all.deep_view().take(all.len() as int) =~= all.deep_view());
        assert forall|i: int| 0 <= i < found.len() implies occurs_in(
            lowercase_of(query@),
            lowercase_of(#[trigger] found[i]@),
        ) by {
            lines_of(contents@).lemma_filter_pred(test, i);
            assert(found.deep_view()[i] == found[i]@);
        }
        if query@.len() == 0 {
            assert forall|i: int| 0 <= i < lines_of(contents@).len() implies test(
                #[trigger] lines_of(contents@)[i],
            ) by {
                lemma_empty_occurs(lowercase_of(query@), lowercase_of(lines_of(contents@)[i]));
            }
            lemma_filter_keeps_all(lines_of(contents@), test);
        }
    }
    found
}

/// Filters `contents` as `config` asks: by `search` where it is case
/// sensitive, by `search_case_insensitive` where it is not.
pub fn run<'a>(config: &BigGrepArgs, contents: &'a str) -> (found: Vec<&'a str>)
    ensures
        found.deep_view() == matching_lines(config.query@, contents@, config.case_sensitive),
        forall|i: int|
            0 <= i < found.len() ==> line_matches(
                config.query@,
                #[trigger] found[i]@,
                config.case_sensitive,
            ),
        config.query@.len() == 0 ==> found.deep_view() == lines_of(contents@),
{
    if config.case_sensitive {
        search(config.query.as_str(), contents)
    } else {
        search_case_insensitive(config.query.as_str(), contents)
    }
}

} // verus!
