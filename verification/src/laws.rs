//! What holds of the line filter on every query and every text.
use vstd::prelude::*;
use crate::search::{
    keeps, lemma_empty_occurs, lemma_filter_keeps_all, line_matches, matching_lines,
};
use crate::text::lines_of;

verus! {

/// Every line that the filter keeps holds the query, by the rule of the mode
/// that was asked for.
pub proof fn law_kept_lines_match(query: Seq<char>, text: Seq<char>, case_sensitive: bool)
    ensures
        forall|i: int|
            0 <= i < matching_lines(query, text, case_sensitive).len() ==> line_matches(
                query,
                #[trigger] matching_lines(query, text, case_sensitive)[i],
                case_sensitive,
            ),
{
    let test = keeps(query, case_sensitive);
    let kept = matching_lines(query, text, case_sensitive);
    assert forall|i: int| 0 <= i < kept.len() implies line_matches(
        query,
        #[trigger] kept[i],
        case_sensitive,
    ) by {
        lines_of(text).lemma_filter_pred(test, i);
    }
}

/// With the empty query and letters compared as they are, the filter keeps
/// every line of the text.
pub proof fn law_empty_query_keeps_all(query: Seq<char>, text: Seq<char>)
    requires
        query.len() == 0,
    ensures
        matching_lines(query, text, true) == lines_of(text),
{
    let test = keeps(query, true);
    let all = lines_of(text);
    assert forall|i: int| 0 <= i < all.len() implies test(#[trigger] all[i]) by {
        lemma_empty_occurs(query, all[i]);
    }
    lemma_filter_keeps_all(lines_of(text), test);
}

/// What a filter keeps stands in the sequence at increasing positions, and
/// every item that passes the test is among what is kept. The positions are
/// returned.
pub proof fn lemma_filter_positions<T>(items: Seq<T>, test: spec_fn(T) -> bool) -> (positions:
    Seq<int>)
    ensures
        positions.len() == items.filter(test).len(),
        forall|i: int|
            0 <= i < positions.len() ==> 0 <= #[trigger] positions[i] < items.len()
                && items.filter(test)[i] == items[positions[i]],
        forall|i: int, j: int|
            0 <= i < j < positions.len() ==> #[trigger] positions[i] < #[trigger] positions[j],
        forall|p: int|
            0 <= p < items.len() && test(#[trigger] items[p]) ==> positions.contains(p),
    decreases items.len(),
{
    reveal(Seq::filter);
    if items.len() == 0 {
        Seq::empty()
    } else {
        let front = items.drop_last();
        let before = lemma_filter_positions(front, test);
        let last: int = items.len() - 1;
        let positions = if test(items.last()) {
            before.push(last)
        } else {
            before
        };
        assert forall|p: int|
            0 <= p < items.len() && test(#[trigger] items[p]) implies positions.contains(p) by {
            if p < last {
                assert(test(front[p]));
                let k: int = choose|k: int| 0 <= k < before.len() && before[k] == p;
                assert(positions[k] == p);
            } else {
                assert(positions[positions.len() - 1] == p);
            }
        }
        positions
    }
}

/// The filter keeps the order of the text and the lines as they stand in it,
/// in either mode: the kept lines are lines of the text at increasing
/// positions, each unchanged, and no line that holds the query is left out.
/// The positions are returned.
pub proof fn law_kept_lines_in_order(
    query: Seq<char>,
    text: Seq<char>,
    case_sensitive: bool,
) -> (positions: Seq<int>)
    ensures
        positions.len() == matching_lines(query, text, case_sensitive).len(),
        forall|i: int|
            0 <= i < positions.len() ==> 0 <= #[trigger] positions[i] < lines_of(text).len()
                && matching_lines(query, text, case_sensitive)[i] == lines_of(text)[positions[i]],
        forall|i: int, j: int|
            0 <= i < j < positions.len() ==> #[trigger] positions[i] < #[trigger] positions[j],
        forall|p: int|
            0 <= p < lines_of(text).len() && line_matches(
                query,
                #[trigger] lines_of(text)[p],
                case_sensitive,
            ) ==> positions.contains(p),
{
    let test = keeps(query, case_sensitive);
    let positions = lemma_filter_positions(lines_of(text), test);
    assert forall|p: int|
        0 <= p < lines_of(text).len() && line_matches(
            query,
            #[trigger] lines_of(text)[p],
            case_sensitive,
        ) implies positions.contains(p) by {
        assert(test(lines_of(text)[p]));
    }
    positions
}

/// The result of the filter is a function of its inputs: two results for
/// the same query, text and mode are the same lines.
pub proof fn law_same_inputs_same_lines(
    first: Seq<Seq<char>>,
    second: Seq<Seq<char>>,
    query: Seq<char>,
    text: Seq<char>,
    case_sensitive: bool,
)
    requires
        first == matching_lines(query, text, case_sensitive),
        second == matching_lines(query, text, case_sensitive),
    ensures
        first == second,
{
}

/// Filtering what the filter kept, with the same query and mode, keeps all
/// of it.
pub proof fn law_filtering_again_keeps_all(query: Seq<char>, text: Seq<char>, case_sensitive: bool)
    ensures
        matching_lines(query, text, case_sensitive).filter(keeps(query, case_sensitive))
            == matching_lines(query, text, case_sensitive),
{
    let test = keeps(query, case_sensitive);
    let kept = matching_lines(query, text, case_sensitive);
    assert forall|i: int| 0 <= i < kept.len() implies test(#[trigger] kept[i]) by {
        lines_of(text).lemma_filter_pred(test, i);
    }
    lemma_filter_keeps_all(kept, test);
}

} // verus!
