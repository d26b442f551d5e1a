//! A small line-oriented text search library: it finds the lines of a text
//! that contain a query, with or without regard to case, and resolves the
//! command-line configuration that drives one search.

pub mod casing;
pub mod cli;
pub mod config;
pub mod encoding;
pub mod text;

use crate::casing::{lowercase, lowercased};
use crate::config::{Config, ConfigView};
use crate::text::{contains, contains_text, lines, lines_of, occurs_at};
use vstd::prelude::*;

verus! {

/// The lines of `contents` that contain `query`, in the order of `contents`.
pub open spec fn matching_lines(query: Seq<char>, contents: Seq<char>) -> Seq<Seq<char>> {
    lines(contents).filter(|line: Seq<char>| contains_text(line, query))
}

/// The lines of `contents` whose lowercase form contains the lowercase form
/// of `query`, in the order of `contents`.
pub open spec fn matching_lines_ignoring_case(query: Seq<char>, contents: Seq<char>) -> Seq<
    Seq<char>,
> {
    lines(contents).filter(
        |line: Seq<char>| contains_text(lowercased(line), lowercased(query)),
    )
}

/// Finds the lines of `contents` that contain `query` as it is written.
pub fn search<'a>(query: &str, contents: &'a str) -> (out: Vec<&'a str>)
    ensures
        out.deep_view() == matching_lines(query@, contents@),
{
    let all = lines_of(contents);
    let ghost keep = |line: Seq<char>| contains_text(line, query@);
    let mut out: Vec<&'a str> = Vec::new();
    for i in 0..all.len()
        invariant
            all.deep_view() == lines(contents@),
            keep == |line: Seq<char>| contains_text(line, query@),
            out.deep_view() == all.deep_view().take(i as int).filter(keep),
    {
        let line = all[i];
        let ghost before = out.deep_view();
        proof {
            let seen = all.deep_view().take(i as int);
            assert(all.deep_view().take(i + 1) =~= seen.push(line@));
            seen.lemma_filter_push(line@, keep);
        }
        if contains(line, query) {
            out.push(line);
            assert(out.deep_view() =~= before.push(line@));
        }
    }
    assert(all.deep_view().take(all.len() as int) =~= all.deep_view());
    out
}

/// Finds the lines of `contents` that contain `query` when case is ignored:
/// a line is kept where its lowercase form contains that of `query`. The
/// lines come back as they stand in `contents`.
pub fn search_case_insensitive<'a>(query: &str, contents: &'a str) -> (out: Vec<&'a str>)
    ensures
        out.deep_view() == matching_lines_ignoring_case(query@, contents@),
{
    let needle = lowercase(query);
    let all = lines_of(contents);
    let ghost keep = |line: Seq<char>| contains_text(lowercased(line), lowercased(query@));
    let mut out: Vec<&'a str> = Vec::new();
    for i in 0..all.len()
        invariant
            needle@ == lowercased(query@),
            all.deep_view() == lines(contents@),
            keep == |line: Seq<char>| contains_text(lowercased(line), lowercased(query@)),
            out.deep_view() == all.deep_view().take(i as int).filter(keep),
    {
        let line = all[i];
        let ghost before = out.deep_view();
        proof {
            let seen = all.deep_view().take(i as int);
            assert(all.deep_view().take(i + 1) =~= seen.push(line@));
            seen.lemma_filter_push(line@, keep);
        }
        if contains(lowercase(line).as_str(), needle.as_str()) {
            out.push(line);
            assert(out.deep_view() =~= before.push(line@));
        }
    }
    assert(all.deep_view().take(all.len() as int) =~= all.deep_view());
    out
}

/// The lines that a search under `config` finds in `contents`.
pub open spec fn found_lines(config: ConfigView, contents: Seq<char>) -> Seq<Seq<char>> {
    if config.ignore_case {
        matching_lines_ignoring_case(config.query, contents)
    } else {
        matching_lines(config.query, contents)
    }
}

/// Runs the search that `config` describes on `contents`, the text of the
/// file that `config` names: finds the lines that contain the query, with or
/// without regard to case as `config` says.
pub fn run<'a>(config: &Config, contents: &'a str) -> (out: Vec<&'a str>)
    ensures
        out.deep_view() == found_lines(config@, contents@),
{
    if config.ignore_case {
        search_case_insensitive(config.query.as_str(), contents)
    } else {
        search(config.query.as_str(), contents)
    }
}

/// Every text contains the empty text.
pub proof fn lemma_contains_empty(hay: Seq<char>)
    ensures
        contains_text(hay, Seq::empty()),
{
    assert(hay.subrange(0, 0) =~= Seq::<char>::empty());
    assert(occurs_at(hay, Seq::empty(), 0));
}

/// A filter keeps a sequence whole where it holds of each element.
proof fn lemma_filter_all(items: Seq<Seq<char>>, keep: spec_fn(Seq<char>) -> bool)
    requires
        forall|i: int| 0 <= i < items.len() ==> keep(#[trigger] items[i]),
    ensures
        items.filter(keep) == items,
    decreases items.len(),
{
    reveal(Seq::filter);
    if items.len() > 0 {
        let front = items.drop_last();
        assert forall|i: int| 0 <= i < front.len() implies keep(#[trigger] front[i]) by {
            assert(front[i] == items[i]);
        }
        lemma_filter_all(front, keep);
        assert(front.push(items.last()) =~= items);
    }
}

/// Two filters that agree on each element of a sequence keep the same of it.
proof fn lemma_filter_agree(
    items: Seq<Seq<char>>,
    one: spec_fn(Seq<char>) -> bool,
    other: spec_fn(Seq<char>) -> bool,
)
    requires
        forall|i: int| 0 <= i < items.len() ==> one(#[trigger] items[i]) == other(items[i]),
    ensures
        items.filter(one) == items.filter(other),
    decreases items.len(),
{
    reveal(Seq::filter);
    if items.len() > 0 {
        let front = items.drop_last();
        assert forall|i: int| 0 <= i < front.len() implies one(#[trigger] front[i]) == other(
            front[i],
        ) by {
            assert(front[i] == items[i]);
        }
        lemma_filter_agree(front, one, other);
        assert(one(items.last()) == other(items.last())) by {
            assert(items.last() == items[items.len() - 1]);
        }
    }
}

/// Filtering what a filter kept is filtering once by both.
proof fn lemma_filter_twice(
    items: Seq<Seq<char>>,
    one: spec_fn(Seq<char>) -> bool,
    other: spec_fn(Seq<char>) -> bool,
)
    ensures
        items.filter(one).filter(other) == items.filter(
            |item: Seq<char>| one(item) && other(item),
        ),
    decreases items.len(),
{
    let both = |item: Seq<char>| one(item) && other(item);
    reveal(Seq::filter);
    if items.len() > 0 {
        let front = items.drop_last();
        lemma_filter_twice(front, one, other);
        if one(items.last()) {
            front.filter(one).lemma_filter_push(items.last(), other);
        }
    }
}

/// A search finds a line exactly where it is a line of `contents` and
/// contains `query`: each line that contains the query is found, and no line
/// that does not contain it.
pub proof fn lemma_search_finds(query: Seq<char>, contents: Seq<char>, line: Seq<char>)
    ensures
        matching_lines(query, contents).contains(line) <==> lines(contents).contains(line)
            && contains_text(line, query),
{
    let keep = |line: Seq<char>| contains_text(line, query);
    let all = lines(contents);
    let found = all.filter(keep);
    if found.contains(line) {
        all.lemma_filter_contains_rev(keep, line);
        let i = choose|i: int| 0 <= i < found.len() && found[i] == line;
        all.lemma_filter_pred(keep, i);
    }
    if all.contains(line) && contains_text(line, query) {
        let i = choose|i: int| 0 <= i < all.len() && all[i] == line;
        all.lemma_filter_contains(keep, i);
    }
}

/// What a filter keeps stands in the order in which it stood.
proof fn lemma_filter_keeps_order(
    items: Seq<Seq<char>>,
    keep: spec_fn(Seq<char>) -> bool,
    a: int,
    b: int,
)
    requires
        0 <= a < b < items.filter(keep).len(),
    ensures
        exists|i: int, j: int|
            0 <= i < j < items.len() && items[i] == items.filter(keep)[a] && items[j]
                == items.filter(keep)[b],
    decreases items.len(),
{
    reveal(Seq::filter);
    let front = items.drop_last();
    let kept = front.filter(keep);
    if b < kept.len() {
        lemma_filter_keeps_order(front, keep, a, b);
        let (i, j) = choose|i: int, j: int|
            0 <= i < j < front.len() && front[i] == kept[a] && front[j] == kept[b];
        assert(items[i] == front[i] && items[j] == front[j]);
    } else {
        assert(kept.contains(kept[a]));
        front.lemma_filter_contains_rev(keep, kept[a]);
        let i = choose|i: int| 0 <= i < front.len() && front[i] == kept[a];
        assert(items[i] == front[i]);
        assert(items[items.len() - 1] == items.filter(keep)[b]);
    }
}

/// The lines that a search finds stand in the order in which they stand in
/// `contents`: of two found lines, the earlier is an earlier line.
pub proof fn lemma_search_keeps_order(query: Seq<char>, contents: Seq<char>, a: int, b: int)
    requires
        0 <= a < b < matching_lines(query, contents).len(),
    ensures
        exists|i: int, j: int|
            0 <= i < j < lines(contents).len() && lines(contents)[i] == matching_lines(
                query,
                contents,
            )[a] && lines(contents)[j] == matching_lines(query, contents)[b],
{
    lemma_filter_keeps_order(
        lines(contents),
        |line: Seq<char>| contains_text(line, query),
        a,
        b,
    );
}

/// A search for the empty query finds every line of `contents`, in order.
pub proof fn lemma_search_empty_query(contents: Seq<char>)
    ensures
        matching_lines(Seq::empty(), contents) == lines(contents),
{
    let keep = |line: Seq<char>| contains_text(line, Seq::<char>::empty());
    let all = lines(contents);
    assert forall|i: int| 0 <= i < all.len() implies keep(#[trigger] all[i]) by {
        lemma_contains_empty(all[i]);
    }
    lemma_filter_all(all, keep);
}

/// What a search finds is decided by the characters of the query and of the
/// text alone: two searches of one kind with the same query in the same text
/// find the same lines in the same order.
pub proof fn lemma_search_repeats(
    query: Seq<char>,
    contents: Seq<char>,
    first: Seq<Seq<char>>,
    second: Seq<Seq<char>>,
)
    requires
        (first == matching_lines(query, contents) && second == matching_lines(query, contents))
            || (first == matching_lines_ignoring_case(query, contents) && second
            == matching_lines_ignoring_case(query, contents)),
    ensures
        first == second,
{
}

/// A search that ignores case finds the same lines for two queries that
/// differ in case only, which is to say: that have the same lowercase form.
pub proof fn lemma_search_ignores_case_of_query(
    query: Seq<char>,
    variant: Seq<char>,
    contents: Seq<char>,
)
    requires
        lowercased(query) == lowercased(variant),
    ensures
        matching_lines_ignoring_case(query, contents) == matching_lines_ignoring_case(
            variant,
            contents,
        ),
{
    let one = |line: Seq<char>| contains_text(lowercased(line), lowercased(query));
    let other = |line: Seq<char>| contains_text(lowercased(line), lowercased(variant));
    lemma_filter_agree(lines(contents), one, other);
}

/// Lowercasing keeps `query` within each line of `contents` that contains
/// it: the lowercase form of such a line contains that of `query`.
pub open spec fn lowercasing_keeps_matches(query: Seq<char>, contents: Seq<char>) -> bool {
    forall|i: int|
        0 <= i < lines(contents).len() && contains_text(#[trigger] lines(contents)[i], query)
            ==> contains_text(lowercased(lines(contents)[i]), lowercased(query))
}

/// Where lowercasing keeps the query within the lines that contain it, the
/// search that ignores case finds every line that the exact search finds:
/// the exact search finds, in the same order, those lines of the other that
/// contain the query as it is written.
pub proof fn lemma_search_ignoring_case_finds_more(query: Seq<char>, contents: Seq<char>)
    requires
        lowercasing_keeps_matches(query, contents),
    ensures
        matching_lines(query, contents) == matching_lines_ignoring_case(query, contents).filter(
            |line: Seq<char>| contains_text(line, query),
        ),
        forall|line: Seq<char>|
            matching_lines(query, contents).contains(line)
                ==> #[trigger] matching_lines_ignoring_case(query, contents).contains(line),
{
    let exact = |line: Seq<char>| contains_text(line, query);
    let folded = |line: Seq<char>| contains_text(lowercased(line), lowercased(query));
    let both = |line: Seq<char>| folded(line) && exact(line);
    let all = lines(contents);
    lemma_filter_twice(all, folded, exact);
    lemma_filter_agree(all, both, exact);
    assert forall|line: Seq<char>| all.filter(exact).contains(line) implies #[trigger] all.filter(
        folded,
    ).contains(line) by {
        all.filter(folded).lemma_filter_contains_rev(exact, line);
    }
}

} // verus!
