//! The mathematical model of a text: how it splits into lines and what it
//! means for one character sequence to occur inside another, together with
//! the verified executable line splitter and substring test.

use vstd::prelude::*;

verus! {

/// `query` occurs contiguously somewhere inside `text`. The empty query
/// occurs in every text.
pub open spec fn has_substring(text: Seq<char>, query: Seq<char>) -> bool {
    exists|i: int|
        0 <= i && i + query.len() <= text.len() && #[trigger] text.subrange(i, i + query.len())
            == query
}

/// A carriage return at the end of a line is dropped; it belongs to the
/// line terminator, not to the line.
pub open spec fn strip_carriage_return(line: Seq<char>) -> Seq<char> {
    if line.len() > 0 && line.last() == '\r' {
        line.drop_last()
    } else {
        line
    }
}

/// Index of the first line feed in `s`, or `s.len()` if there is none.
pub open spec fn first_newline(s: Seq<char>) -> nat
    decreases s.len(),
{
    if s.len() == 0 {
        0
    } else if s[0] == '\n' {
        0
    } else {
        1 + first_newline(s.drop_first())
    }
}

/// The lines of `s`: the segments between line feeds, each with a carriage
/// return dropped just before its line feed. A final segment without a
/// trailing line feed is a line; after a trailing line feed no empty extra
/// line follows.
pub open spec fn spec_lines(s: Seq<char>) -> Seq<Seq<char>>
    decreases s.len(),
{
    if s.len() == 0 {
        Seq::empty()
    } else {
        let i = first_newline(s) as int;
        if i < s.len() {
            seq![strip_carriage_return(s.subrange(0, i))] + spec_lines(
                s.subrange(i + 1, s.len() as int),
            )
        } else {
            seq![s]
        }
    }
}

/// `first_newline` is pinned down by its two defining facts: no line feed
/// lies before position `m`, and `m` is a line feed or the end.
proof fn lemma_first_newline_is(s: Seq<char>, m: nat)
    requires
        m <= s.len(),
        forall|j: int| 0 <= j < m ==> s[j] != '\n',
        m < s.len() ==> s[m as int] == '\n',
    ensures
        first_newline(s) == m,
    decreases s.len(),
{
    if s.len() == 0 {
    } else if s[0] == '\n' {
        assert(m == 0);
    } else {
        let rest = s.drop_first();
        assert(forall|j: int| 0 <= j < m - 1 ==> rest[j] == s[j + 1] && rest[j] != '\n');
        lemma_first_newline_is(rest, (m - 1) as nat);
    }
}

/// Splits `contents` into its lines, as `spec_lines` describes: segments
/// between line feeds, a carriage return dropped just before each line feed,
/// and no empty extra line after a trailing line feed. Each returned slice
/// borrows from `contents`.
pub fn split_lines<'a>(contents: &'a str) -> (lines: Vec<&'a str>)
    ensures
        lines.deep_view() == spec_lines(contents@),
{
    let n = contents.unicode_len();
    let mut lines: Vec<&'a str> = Vec::new();
    let mut pos: usize = 0;
    proof {
        assert(contents@.subrange(0, n as int) =~= contents@);
    }
    while pos < n
        invariant
            pos <= n,
            n == contents@.len(),
            spec_lines(contents@) =~~= lines.deep_view() + spec_lines(
                contents@.subrange(pos as int, n as int),
            ),
        decreases n - pos,
    {
        let ghost prev_lines = lines.deep_view();
        let ghost rest = contents@.subrange(pos as int, n as int);
        let mut end: usize = pos;
        while end < n && contents.get_char(end) != '\n'
            invariant
                pos <= end <= n,
                n == contents@.len(),
                forall|j: int| pos <= j < end ==> contents@[j] != '\n',
            decreases n - end,
        {
            end = end + 1;
        }
        proof {
            assert(forall|j: int| 0 <= j < end - pos ==> rest[j] == contents@[pos + j]);
            lemma_first_newline_is(rest, (end - pos) as nat);
        }
        if end < n {
            let line_end = if end > pos && contents.get_char(end - 1) == '\r' {
                end - 1
            } else {
                end
            };
            let line = contents.substring_char(pos, line_end);
            lines.push(line);
            proof {
                assert(rest.subrange(0, end - pos) =~= contents@.subrange(pos as int, end as int));
                assert(strip_carriage_return(rest.subrange(0, end - pos)) =~= line@);
                assert(rest.subrange(end - pos + 1, rest.len() as int) =~= contents@.subrange(
                    end + 1,
                    n as int,
                ));
                assert(lines.deep_view() =~~= prev_lines.push(line@));
                assert(spec_lines(rest) =~~= seq![line@] + spec_lines(
                    contents@.subrange(end + 1, n as int),
                ));
            }
            pos = end + 1;
        } else {
            let line = contents.substring_char(pos, n);
            lines.push(line);
            proof {
                assert(line@ =~= rest);
                assert(lines.deep_view() =~~= prev_lines.push(rest));
                assert(spec_lines(rest) =~~= seq![rest]);
            }
            pos = n;
            proof {
                assert(contents@.subrange(n as int, n as int) =~= Seq::<char>::empty());
            }
        }
    }
    proof {
        assert(contents@.subrange(n as int, n as int) =~= Seq::<char>::empty());
        assert(spec_lines(contents@) =~~= lines.deep_view());
    }
    lines
}

/// The characters of `text` starting at `start` spell out `query`.
fn matches_at(text: &str, query: &str, start: usize) -> (r: bool)
    requires
        start + query@.len() <= text@.len(),
        text@.len() <= usize::MAX,
    ensures
        r == (text@.subrange(start as int, start + query@.len()) == query@),
{
    let m = query.unicode_len();
    let ghost window = text@.subrange(start as int, start + query@.len());
    let mut j: usize = 0;
    while j < m
        invariant
            j <= m,
            m == query@.len(),
            start + m <= text@.len() <= usize::MAX,
            window == text@.subrange(start as int, start + m as int),
            forall|k: int| 0 <= k < j ==> text@[start + k] == query@[k],
        decreases m - j,
    {
        if text.get_char(start + j) != query.get_char(j) {
            proof {
                assert(window[j as int] == text@[start + j]);
            }
            return false;
        }
        j = j + 1;
    }
    proof {
        assert(window =~= query@);
    }
    true
}

/// Whether `query` occurs contiguously inside `text`, as `has_substring`
/// describes. The empty query occurs in every text.
pub fn contains_substring(text: &str, query: &str) -> (r: bool)
    ensures
        r == has_substring(text@, query@),
{
    let n = text.unicode_len();
    let m = query.unicode_len();
    if m == 0 {
        proof {
            assert(text@.subrange(0, 0 + query@.len() as int) =~= query@);
        }
        return true;
    }
    if m > n {
        return false;
    }
    let mut i: usize = 0;
    while i <= n - m
        invariant
            0 < m <= n,
            n == text@.len(),
            m == query@.len(),
            i <= n - m + 1,
            forall|k: int| 0 <= k < i ==> #[trigger] text@.subrange(k, k + m as int) != query@,
        decreases n - m - i + 1,
    {
        if matches_at(text, query, i) {
            return true;
        }
        i = i + 1;
    }
    false
}

} // verus!
