//! Finding the lines of a text that contain a query.

use vstd::prelude::*;
use vstd::string::*;
use crate::lines::{after_first_line, first_line, lines_of, split_first_line};
use crate::lowercase::{lowercase_of, to_lowercase};
use crate::substring::{
    contains,
    lemma_empty_occurs,
    lemma_longer_never_occurs,
    lemma_occurs_in_itself,
    occurs_in,
};

verus! {

/// The test that a line passes where it contains `query`.
pub open spec fn containing(query: Seq<char>) -> spec_fn(Seq<char>) -> bool {
    |line: Seq<char>| occurs_in(query, line)
}

/// The test that a line passes where its lowercase form contains the
/// lowercase form of `query`.
pub open spec fn containing_ignoring_case(query: Seq<char>) -> spec_fn(Seq<char>) -> bool {
    |line: Seq<char>| occurs_in(lowercase_of(query), lowercase_of(line))
}

/// The lines of `contents` that contain `query`, in the order of the text.
pub open spec fn matching_lines(query: Seq<char>, contents: Seq<char>) -> Seq<Seq<char>> {
    lines_of(contents).filter(containing(query))
}

/// The lines of `contents` whose lowercase form contains the lowercase form
/// of `query`, in the order of the text and as the text has them.
pub open spec fn matching_lines_ignoring_case(query: Seq<char>, contents: Seq<char>) -> Seq<
    Seq<char>,
> {
    lines_of(contents).filter(containing_ignoring_case(query))
}

/// The lines that a search for `query` in `contents` returns, without regard
/// to letter case where `ignore_case` is set and with regard to it where not.
pub open spec fn selected_lines(query: Seq<char>, contents: Seq<char>, ignore_case: bool) -> Seq<
    Seq<char>,
> {
    if ignore_case {
        matching_lines_ignoring_case(query, contents)
    } else {
        matching_lines(query, contents)
    }
}

/// `picked` holds the items of `all` that stand at the indices `places`, and
/// these indices rise: `picked` keeps the order of `all` and takes no item
/// of it twice.
pub open spec fn picked_at<T>(picked: Seq<T>, all: Seq<T>, places: Seq<int>) -> bool {
    &&& places.len() == picked.len()
    &&& forall|k: int|
        0 <= k < places.len() ==> 0 <= #[trigger] places[k] < all.len() && picked[k]
            == all[places[k]]
    &&& forall|j: int, k: int| 0 <= j < k < places.len() ==> places[j] < places[k]
}

/// `places` holds the index of every item of `all` that passes `wanted`, and
/// of no other.
pub open spec fn places_of<T>(all: Seq<T>, wanted: spec_fn(T) -> bool, places: Seq<int>) -> bool {
    forall|i: int| 0 <= i < all.len() ==> (wanted(#[trigger] all[i]) <==> places.contains(i))
}

/// Filtering picks the items that pass the test, each once and in order.
/// The result gives the index in `all` of each item picked.
pub proof fn lemma_filter_picks<T>(all: Seq<T>, wanted: spec_fn(T) -> bool) -> (places: Seq<int>)
    ensures
        picked_at(all.filter(wanted), all, places),
        places_of(all, wanted, places),
    decreases all.len(),
{
    reveal(Seq::filter);
    if all.len() == 0 {
        Seq::empty()
    } else {
        let front = all.drop_last();
        let earlier = lemma_filter_picks(front, wanted);
        let last = all.len() - 1;
        if wanted(all.last()) {
            let places = earlier.push(last);
            assert forall|i: int| 0 <= i < all.len() implies (wanted(#[trigger] all[i])
                <==> places.contains(i)) by {
                if i < last {
                    assert(all[i] == front[i]);
                    if earlier.contains(i) {
                        let k = choose|k: int| 0 <= k < earlier.len() && earlier[k] == i;
                        assert(places[k] == i);
                    }
                    if places.contains(i) {
                        let k = choose|k: int| 0 <= k < places.len() && places[k] == i;
                        assert(earlier[k] == i);
                    }
                } else {
                    assert(places[earlier.len() as int] == i);
                }
            }
            places
        } else {
            assert forall|i: int| 0 <= i < all.len() implies (wanted(#[trigger] all[i])
                <==> earlier.contains(i)) by {
                if i < last {
                    assert(all[i] == front[i]);
                } else if earlier.contains(i) {
                    let k = choose|k: int| 0 <= k < earlier.len() && earlier[k] == i;
                    assert(earlier[k] < front.len());
                }
            }
            earlier
        }
    }
}

/// Filtering keeps a sequence as it is where all its items pass the test.
pub proof fn lemma_filter_keeps_all<T>(all: Seq<T>, wanted: spec_fn(T) -> bool)
    requires
        forall|i: int| 0 <= i < all.len() ==> wanted(#[trigger] all[i]),
    ensures
        all.filter(wanted) == all,
    decreases all.len(),
{
    reveal(Seq::filter);
    if all.len() > 0 {
        let front = all.drop_last();
        assert forall|i: int| 0 <= i < front.len() implies wanted(#[trigger] front[i]) by {
            assert(front[i] == all[i]);
        }
        lemma_filter_keeps_all(front, wanted);
        assert(front.push(all.last()) =~= all);
    }
}

/// Filtering the lines of a text is filtering its first line and then the
/// lines after it.
proof fn lemma_filter_lines(contents: Seq<char>, wanted: spec_fn(Seq<char>) -> bool)
    requires
        contents.len() > 0,
    ensures
        lines_of(contents).filter(wanted) == (if wanted(first_line(contents)) {
            seq![first_line(contents)]
        } else {
            Seq::empty()
        }) + lines_of(after_first_line(contents)).filter(wanted),
        after_first_line(contents).len() < contents.len(),
{
    lines_of(after_first_line(contents)).lemma_filter_prepend(first_line(contents), wanted);
}

/// A search with regard to letter case returns the lines that contain the
/// query and no others: every line returned is a line of the text that
/// contains the query, every line of the text that contains the query is
/// returned, and the lines returned stand in the order of the text, none of
/// them twice. The result gives, for each line returned, its index among
/// the lines of the text.
pub proof fn lemma_matching_lines(query: Seq<char>, contents: Seq<char>) -> (places: Seq<int>)
    ensures
        picked_at(matching_lines(query, contents), lines_of(contents), places),
        forall|i: int|
            0 <= i < lines_of(contents).len() ==> (occurs_in(query, #[trigger] lines_of(contents)[i])
                <==> places.contains(i)),
{
    let places = lemma_filter_picks(lines_of(contents), containing(query));
    assert forall|i: int| 0 <= i < lines_of(contents).len() implies (occurs_in(
        query,
        #[trigger] lines_of(contents)[i],
    ) <==> places.contains(i)) by {
        assert(containing(query)(lines_of(contents)[i]) == occurs_in(query, lines_of(contents)[i]));
    }
    places
}

/// A search without regard to letter case returns the lines whose lowercase
/// form contains the lowercase form of the query, and no others. Each line
/// is returned as the text has it, not in its lowercase form; the lines
/// returned stand in the order of the text, none of them twice. The result
/// gives, for each line returned, its index among the lines of the text.
pub proof fn lemma_matching_lines_ignoring_case(query: Seq<char>, contents: Seq<char>) -> (places:
    Seq<int>)
    ensures
        picked_at(matching_lines_ignoring_case(query, contents), lines_of(contents), places),
        forall|i: int|
            0 <= i < lines_of(contents).len() ==> (occurs_in(
                lowercase_of(query),
                lowercase_of(#[trigger] lines_of(contents)[i]),
            ) <==> places.contains(i)),
{
    let places = lemma_filter_picks(lines_of(contents), containing_ignoring_case(query));
    assert forall|i: int| 0 <= i < lines_of(contents).len() implies (occurs_in(
        lowercase_of(query),
        lowercase_of(#[trigger] lines_of(contents)[i]),
    ) <==> places.contains(i)) by {
        assert(containing_ignoring_case(query)(lines_of(contents)[i]) == occurs_in(
            lowercase_of(query),
            lowercase_of(lines_of(contents)[i]),
        ));
    }
    places
}

/// Searching is repeatable: two searches for the same query in the same text
/// return the same lines in the same order, in either mode.
pub proof fn lemma_search_is_repeatable(
    query: Seq<char>,
    contents: Seq<char>,
    first: Seq<Seq<char>>,
    second: Seq<Seq<char>>,
    ignore_case: bool,
)
    requires
        first == selected_lines(query, contents, ignore_case),
        second == selected_lines(query, contents, ignore_case),
    ensures
        first == second,
{
}

/// With regard to letter case, the empty query is found in every line: the
/// search returns all lines of the text, unchanged and in order.
pub proof fn lemma_empty_query(contents: Seq<char>)
    ensures
        matching_lines(Seq::empty(), contents) == lines_of(contents),
{
    let lines = lines_of(contents);
    let wanted = containing(Seq::empty());
    assert forall|i: int| 0 <= i < lines.len() implies wanted(#[trigger] lines[i]) by {
        lemma_empty_occurs(lines[i]);
    }
    lemma_filter_keeps_all(lines, wanted);
}

/// Without regard to letter case, a query whose lowercase form is empty is
/// found in every line.
pub proof fn lemma_empty_query_ignoring_case(query: Seq<char>, contents: Seq<char>)
    requires
        lowercase_of(query).len() == 0,
    ensures
        matching_lines_ignoring_case(query, contents) == lines_of(contents),
{
    let lines = lines_of(contents);
    let wanted = containing_ignoring_case(query);
    assert(lowercase_of(query) =~= Seq::empty());
    assert forall|i: int| 0 <= i < lines.len() implies wanted(#[trigger] lines[i]) by {
        lemma_empty_occurs(lowercase_of(lines[i]));
    }
    lemma_filter_keeps_all(lines, wanted);
}

/// A query that is longer than every line of a text is found in none.
pub proof fn lemma_long_query(query: Seq<char>, contents: Seq<char>)
    requires
        forall|i: int|
            0 <= i < lines_of(contents).len() ==> (#[trigger] lines_of(contents)[i]).len()
                < query.len(),
    ensures
        matching_lines(query, contents).len() == 0,
{
    let lines = lines_of(contents);
    let places = lemma_filter_picks(lines, containing(query));
    if places.len() > 0 {
        lemma_longer_never_occurs(query, lines[places[0]]);
        assert(places.contains(places[0]));
    }
}

/// A query that is equal to a line of a text is found in that line.
pub proof fn lemma_whole_line_query(query: Seq<char>, contents: Seq<char>)
    requires
        lines_of(contents).contains(query),
    ensures
        matching_lines(query, contents).contains(query),
{
    let lines = lines_of(contents);
    let i = choose|i: int| 0 <= i < lines.len() && lines[i] == query;
    lemma_occurs_in_itself(query);
    lines.lemma_filter_contains(containing(query), i);
}

/// The lines of `contents` in which `needle` occurs, or in whose lowercase
/// form it occurs where `fold_case` is set. `wanted` is that test.
fn lines_with<'a>(
    needle: &str,
    contents: &'a str,
    fold_case: bool,
    Ghost(wanted): Ghost<spec_fn(Seq<char>) -> bool>,
) -> (found: Vec<&'a str>)
    requires
        forall|line: Seq<char>| #[trigger]
            wanted(line) == occurs_in(
                needle@,
                if fold_case {
                    lowercase_of(line)
                } else {
                    line
                },
            ),
    ensures
        found.deep_view() == lines_of(contents@).filter(wanted),
{
    let mut found: Vec<&'a str> = Vec::new();
    let mut remaining: &'a str = contents;
    proof {
        assert(found.deep_view() + lines_of(remaining@).filter(wanted) =~= lines_of(
            contents@,
        ).filter(wanted));
    }
    loop
        invariant
            forall|line: Seq<char>| #[trigger]
                wanted(line) == occurs_in(
                    needle@,
                    if fold_case {
                        lowercase_of(line)
                    } else {
                        line
                    },
                ),
            lines_of(contents@).filter(wanted) == found.deep_view() + lines_of(
                remaining@,
            ).filter(wanted),
        ensures
            found.deep_view() == lines_of(contents@).filter(wanted),
        decreases remaining@.len(),
    {
        match split_first_line(remaining) {
            None => {
                proof {
                    reveal(Seq::filter);
                    assert(found.deep_view() + lines_of(remaining@).filter(wanted)
                        =~= found.deep_view());
                }
                break ;
            },
            Some((line, rest)) => {
                let ghost before = found.deep_view();
                proof {
                    lemma_filter_lines(remaining@, wanted);
                }
                let hit = if fold_case {
                    contains(to_lowercase(line).as_str(), needle)
                } else {
                    contains(line, needle)
                };
                if hit {
                    found.push(line);
                    assert(found.deep_view() =~= before + seq![line@]);
                }
                proof {
                    assert(found.deep_view() + lines_of(rest@).filter(wanted) =~= before
                        + lines_of(remaining@).filter(wanted));
                }
                remaining = rest;
            },
        }
    }
    found
}

/// The lines of `contents` that contain `query`, each as a view into
/// `contents`, in the order in which they stand there.
///
/// Letter case counts. An empty query is found in every line, so that all
/// lines are returned.
pub fn search<'a>(query: &str, contents: &'a str) -> (found: Vec<&'a str>)
    ensures
        found.deep_view() == matching_lines(query@, contents@),
        query@.len() == 0 ==> found.deep_view() == lines_of(contents@),
{
    proof {
        if query@.len() == 0 {
            assert(query@ =~= Seq::empty());
            lemma_empty_query(contents@);
        }
    }
    lines_with(query, contents, false, Ghost(containing(query@)))
}

/// The lines of `contents` that contain `query` when letter case is left out
/// of account: those whose lowercase form contains the lowercase form of
/// `query`. Each line is a view into `contents`, as it is written there, and
/// the lines come in the order in which they stand there.
///
/// An empty query is found in every line, so that all lines are returned.
pub fn search_case_insensitive<'a>(query: &str, contents: &'a str) -> (found: Vec<&'a str>)
    ensures
        found.deep_view() == matching_lines_ignoring_case(query@, contents@),
        query@.len() == 0 ==> found.deep_view() == lines_of(contents@),
{
    let lowered = to_lowercase(query);
    proof {
        if query@.len() == 0 {
            lemma_empty_query_ignoring_case(query@, contents@);
        }
    }
    lines_with(lowered.as_str(), contents, true, Ghost(containing_ignoring_case(query@)))
}

} // verus!
