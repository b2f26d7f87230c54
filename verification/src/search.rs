//! The two search functions: exact-case and case-insensitive line search,
//! each returning, in original order, the lines of the text that contain the
//! query.

use vstd::prelude::*;

use crate::text::has_substring;
use crate::text::spec_lines;
use crate::text::contains_substring;
use crate::text::split_lines;

verus! {

/// The lowercase form of a character sequence, as the standard library's
/// lowercase transform produces it. It depends on the characters alone.
pub uninterp spec fn lower_of(s: Seq<char>) -> Seq<char>;

/// Relies on str::to_lowercase: the result is a function of the characters
/// alone, and an empty string stays empty.
#[verifier::external_body]
fn to_lowercase(s: &str) -> (r: String)
    ensures
        r@ == lower_of(s@),
        s@.len() == 0 ==> r@.len() == 0,
{
    s.to_lowercase()
}

/// The lines of `text` that contain `query` with exact case, in original
/// order.
pub open spec fn spec_search(query: Seq<char>, text: Seq<char>) -> Seq<Seq<char>> {
    spec_lines(text).filter(|line: Seq<char>| has_substring(line, query))
}

/// The lines of `text` whose lowercase form contains the lowercase form of
/// `query`, in original order.
pub open spec fn spec_search_case_insensitive(query: Seq<char>, text: Seq<char>) -> Seq<
    Seq<char>,
> {
    spec_lines(text).filter(|line: Seq<char>| has_substring(lower_of(line), lower_of(query)))
}

/// Filtering a sequence extended by one element keeps the filtered prefix and
/// appends the new element exactly when it satisfies the predicate.
proof fn lemma_filter_push<A>(s: Seq<A>, pred: spec_fn(A) -> bool, x: A)
    ensures
        s.push(x).filter(pred) == if pred(x) {
            s.filter(pred).push(x)
        } else {
            s.filter(pred)
        },
{
    reveal(Seq::filter);
    assert(s.push(x).drop_last() =~= s);
    assert(s.push(x).last() == x);
}

/// A filter whose predicate holds of every element returns the sequence
/// unchanged.
proof fn lemma_filter_all<A>(s: Seq<A>, pred: spec_fn(A) -> bool)
    requires
        forall|i: int| 0 <= i < s.len() ==> pred(s[i]),
    ensures
        s.filter(pred) == s,
    decreases s.len(),
{
    reveal(Seq::filter);
    if s.len() > 0 {
        lemma_filter_all(s.drop_last(), pred);
        assert(s.filter(pred) =~= s);
    }
}

/// A filtered sequence holds exactly the elements of the original that
/// satisfy the predicate: every element it holds satisfies the predicate and
/// comes from the original, and every element of the original that satisfies
/// the predicate is held.
proof fn lemma_filter_membership<A>(s: Seq<A>, pred: spec_fn(A) -> bool)
    ensures
        forall|i: int| 0 <= i < s.filter(pred).len() ==> pred(#[trigger] s.filter(pred)[i]),
        forall|i: int| 0 <= i < s.filter(pred).len() ==> s.contains(#[trigger] s.filter(pred)[i]),
        forall|j: int| 0 <= j < s.len() && pred(#[trigger] s[j]) ==> s.filter(pred).contains(s[j]),
    decreases s.len(),
{
    reveal(Seq::filter);
    if s.len() > 0 {
        let rest = s.drop_last();
        lemma_filter_membership(rest, pred);
        assert forall|i: int| 0 <= i < s.filter(pred).len() implies pred(
            #[trigger] s.filter(pred)[i],
        ) && s.contains(s.filter(pred)[i]) by {
            if i < rest.filter(pred).len() {
                assert(s.filter(pred)[i] == rest.filter(pred)[i]);
                let w = choose|k: int| 0 <= k < rest.len() && rest[k] == rest.filter(pred)[i];
                assert(s[w] == rest[w]);
            } else {
                assert(s.filter(pred)[i] == s.last());
            }
        }
        assert forall|j: int| 0 <= j < s.len() && pred(#[trigger] s[j]) implies s.filter(
            pred,
        ).contains(s[j]) by {
            if j < s.len() - 1 {
                assert(rest[j] == s[j]);
                let w = choose|k: int|
                    0 <= k < rest.filter(pred).len() && rest.filter(pred)[k] == rest[j];
                if pred(s.last()) {
                    assert(s.filter(pred)[w] == rest.filter(pred)[w]);
                } else {
                    assert(s.filter(pred)[w] == rest.filter(pred)[w]);
                }
            } else {
                assert(s.filter(pred)[s.filter(pred).len() - 1] == s.last());
            }
        }
    }
}

/// A returned line always contains the query and comes from the text's
/// lines, and every line of the text that contains the query is returned.
pub proof fn lemma_search_sound_and_complete(query: Seq<char>, text: Seq<char>)
    ensures
        forall|i: int|
            0 <= i < spec_search(query, text).len() ==> has_substring(
                #[trigger] spec_search(query, text)[i],
                query,
            ),
        forall|i: int|
            0 <= i < spec_search(query, text).len() ==> spec_lines(text).contains(
                #[trigger] spec_search(query, text)[i],
            ),
        forall|j: int|
            0 <= j < spec_lines(text).len() && has_substring(#[trigger] spec_lines(text)[j], query)
                ==> spec_search(query, text).contains(spec_lines(text)[j]),
{
    lemma_filter_membership(spec_lines(text), |line: Seq<char>| has_substring(line, query));
}

/// A line returned by the case-insensitive search always contains the query
/// in lowercase form and comes from the text's lines, and every line of the
/// text whose lowercase form contains the query's lowercase form is returned.
pub proof fn lemma_search_case_insensitive_sound_and_complete(query: Seq<char>, text: Seq<char>)
    ensures
        forall|i: int|
            0 <= i < spec_search_case_insensitive(query, text).len() ==> has_substring(
                lower_of(#[trigger] spec_search_case_insensitive(query, text)[i]),
                lower_of(query),
            ),
        forall|i: int|
            0 <= i < spec_search_case_insensitive(query, text).len() ==> spec_lines(
                text,
            ).contains(#[trigger] spec_search_case_insensitive(query, text)[i]),
        forall|j: int|
            0 <= j < spec_lines(text).len() && has_substring(
                lower_of(#[trigger] spec_lines(text)[j]),
                lower_of(query),
            ) ==> spec_search_case_insensitive(query, text).contains(spec_lines(text)[j]),
{
    lemma_filter_membership(
        spec_lines(text),
        |line: Seq<char>| has_substring(lower_of(line), lower_of(query)),
    );
}

/// The empty query occurs in every line, so searching for it returns every
/// line of the text.
pub proof fn lemma_empty_query_returns_all_lines(query: Seq<char>, text: Seq<char>)
    requires
        query.len() == 0,
    ensures
        spec_search(query, text) == spec_lines(text),
{
    let pred = |line: Seq<char>| has_substring(line, query);
    assert forall|i: int| 0 <= i < spec_lines(text).len() implies pred(spec_lines(text)[i]) by {
        let line = spec_lines(text)[i];
        assert(line.subrange(0, 0 + query.len() as int) =~= query);
    }
    lemma_filter_all(spec_lines(text), pred);
}

/// The lines of `contents` that contain `query` with exact case, in original
/// order; a line that occurs several times and matches is returned as often
/// as it occurs. The empty query matches every line. Each returned slice
/// borrows from `contents`.
pub fn search<'a>(query: &str, contents: &'a str) -> (result: Vec<&'a str>)
    ensures
        result.deep_view() == spec_search(query@, contents@),
        query@.len() == 0 ==> result.deep_view() == spec_lines(contents@),
{
    let ghost pred = |line: Seq<char>| has_substring(line, query@);
    let lines = split_lines(contents);
    let mut result: Vec<&'a str> = Vec::new();
    let mut idx: usize = 0;
    proof {
        assert(lines.deep_view().take(0) =~= Seq::<Seq<char>>::empty());
        reveal(Seq::filter);
    }
    while idx < lines.len()
        invariant
            idx <= lines.len(),
            lines.deep_view() == spec_lines(contents@),
            result.deep_view() =~~= lines.deep_view().take(idx as int).filter(pred),
            pred == (|line: Seq<char>| has_substring(line, query@)),
        decreases lines.len() - idx,
    {
        let ghost prev = result.deep_view();
        let ghost taken = lines.deep_view().take(idx as int);
        if contains_substring(lines[idx], query) {
            result.push(lines[idx]);
            proof {
                assert(result.deep_view() =~~= prev.push(lines.deep_view()[idx as int]));
            }
        }
        proof {
            assert(lines.deep_view().take(idx + 1) =~~= taken.push(
                lines.deep_view()[idx as int],
            ));
            lemma_filter_push(taken, pred, lines.deep_view()[idx as int]);
        }
        idx = idx + 1;
    }
    proof {
        assert(lines.deep_view().take(lines@.len() as int) =~~= lines.deep_view());
        if query@.len() == 0 {
            lemma_empty_query_returns_all_lines(query@, contents@);
        }
    }
    result
}

/// The lines of `contents` whose lowercase form contains the lowercase form
/// of `query`, in original order; the lines are returned as they stand in
/// `contents`, not lowered. The empty query matches every line. Each returned
/// slice borrows from `contents`.
pub fn search_case_insensitive<'a>(query: &str, contents: &'a str) -> (result: Vec<&'a str>)
    ensures
        result.deep_view() == spec_search_case_insensitive(query@, contents@),
        query@.len() == 0 ==> result.deep_view() == spec_lines(contents@),
{
    let ghost pred = |line: Seq<char>| has_substring(lower_of(line), lower_of(query@));
    let lowered_query = to_lowercase(query);
    let lines = split_lines(contents);
    let mut result: Vec<&'a str> = Vec::new();
    let mut idx: usize = 0;
    proof {
        assert(lines.deep_view().take(0) =~= Seq::<Seq<char>>::empty());
        reveal(Seq::filter);
    }
    while idx < lines.len()
        invariant
            idx <= lines.len(),
            lines.deep_view() == spec_lines(contents@),
            lowered_query@ == lower_of(query@),
            result.deep_view() =~~= lines.deep_view().take(idx as int).filter(pred),
            pred == (|line: Seq<char>| has_substring(lower_of(line), lower_of(query@))),
        decreases lines.len() - idx,
    {
        let ghost prev = result.deep_view();
        let ghost taken = lines.deep_view().take(idx as int);
        let lowered_line = to_lowercase(lines[idx]);
        if contains_substring(lowered_line.as_str(), lowered_query.as_str()) {
            result.push(lines[idx]);
            proof {
                assert(result.deep_view() =~~= prev.push(lines.deep_view()[idx as int]));
            }
        }
        proof {
            assert(lines.deep_view().take(idx + 1) =~~= taken.push(
                lines.deep_view()[idx as int],
            ));
            lemma_filter_push(taken, pred, lines.deep_view()[idx as int]);
        }
        idx = idx + 1;
    }
    proof {
        assert(lines.deep_view().take(lines@.len() as int) =~~= lines.deep_view());
        if query@.len() == 0 {
            assert forall|i: int| 0 <= i < spec_lines(contents@).len() implies pred(
                #[trigger] spec_lines(contents@)[i],
            ) by {
                let line = spec_lines(contents@)[i];
                assert(lower_of(line).subrange(0, 0 + lower_of(query@).len() as int) =~= lower_of(
                    query@,
                ));
            }
            lemma_filter_all(spec_lines(contents@), pred);
        }
    }
    result
}

} // verus!
