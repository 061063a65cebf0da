//! The pieces of a text: the lines of a file, a line without the white space
//! around it, and the tags among the tokens of a subject.
//!
//! A token is a longest run of characters that are not white space. A tag is
//! a token of at least two characters whose first is the marker; the tag's
//! text is the token without the marker.

use crate::text::{is_space, is_space_char, strings_view};
use vstd::prelude::*;

verus! {

/// The index at which the token that holds index `from` ends: that of the
/// first white space at `from` or later, or the length of `s`.
pub open spec fn token_end(s: Seq<char>, from: int) -> int
    decreases s.len() - from,
{
    if from < 0 || from >= s.len() || is_space(s[from]) {
        from
    } else {
        token_end(s, from + 1)
    }
}

/// The tag that the token `token` is, if it is one.
pub open spec fn tag_of_token(token: Seq<char>, marker: char) -> Seq<Seq<char>> {
    if token.len() >= 2 && token[0] == marker {
        seq![token.skip(1)]
    } else {
        Seq::empty()
    }
}

/// The tags with the marker `marker` among the tokens of `s` that start at
/// `from` or later, in the order in which they stand, each as often as it
/// stands there.
pub open spec fn tags_from(s: Seq<char>, from: int, marker: char) -> Seq<Seq<char>>
    decreases s.len() - from,
{
    if from < 0 || from >= s.len() {
        Seq::empty()
    } else if is_space(s[from]) {
        tags_from(s, from + 1, marker)
    } else {
        let end = token_end(s, from);
        if end <= from || end > s.len() {
            Seq::empty()
        } else {
            tag_of_token(s.subrange(from, end), marker) + tags_from(s, end, marker)
        }
    }
}

/// The tags with the marker `marker` in `s`, in the order in which they
/// stand, each as often as it stands there.
pub open spec fn tags_of(s: Seq<char>, marker: char) -> Seq<Seq<char>> {
    tags_from(s, 0, marker)
}

/// A run without white space that ends at a white space, or at the end of the
/// text, ends where its token ends.
pub proof fn lemma_token_end(s: Seq<char>, from: int, end: int)
    requires
        0 <= from <= end <= s.len(),
        forall|j: int| from <= j < end ==> !is_space(s[j]),
        end == s.len() || is_space(s[end]),
    ensures
        token_end(s, from) == end,
    decreases end - from,
{
    if from < end {
        lemma_token_end(s, from + 1, end);
    }
}

/// The text that holds the characters of `s` from `from` up to `to`.
pub fn text_of_range(s: &Vec<char>, from: usize, to: usize) -> (text: String)
    requires
        from <= to <= s.len(),
    ensures
        text@ == s@.subrange(from as int, to as int),
{
    let mut text = String::new();
    let mut i: usize = from;
    while i < to
        invariant
            from <= i <= to <= s.len(),
            text@ == s@.subrange(from as int, i as int),
        decreases to - i,
    {
        text.push(s[i]);
        proof {
            assert(s@.subrange(from as int, i as int).push(s@[i as int]) =~= s@.subrange(
                from as int,
                i + 1,
            ));
        }
        i += 1;
    }
    text
}

/// Collects the tags with the marker `marker` in `s`.
pub fn collect_tags(s: &Vec<char>, marker: char) -> (tags: Vec<String>)
    ensures
        strings_view(tags@) == tags_of(s@, marker),
{
    let n = s.len();
    let mut tags: Vec<String> = Vec::new();
    let mut i: usize = 0;
    proof {
        assert(strings_view(tags@) + tags_from(s@, 0, marker) =~= tags_from(s@, 0, marker));
    }
    while i < n
        invariant
            n == s.len(),
            i <= n,
            tags_of(s@, marker) == strings_view(tags@) + tags_from(s@, i as int, marker),
        decreases n - i,
    {
        if is_space_char(s[i]) {
            i += 1;
        } else {
            let mut end: usize = i + 1;
            while end < n && !is_space_char(s[end])
                invariant
                    n == s.len(),
                    i < end <= n,
                    forall|j: int| i <= j < end ==> !is_space(s@[j]),
                decreases n - end,
            {
                end += 1;
            }
            proof {
                lemma_token_end(s@, i as int, end as int);
            }
            if end - i >= 2 && s[i] == marker {
                let tag = text_of_range(s, i + 1, end);
                proof {
                    let token = s@.subrange(i as int, end as int);
                    assert(token.skip(1) =~= tag@);
                    assert(strings_view(tags@.push(tag)) =~= strings_view(tags@) + seq![tag@]);
                    assert(strings_view(tags@) + (seq![tag@] + tags_from(s@, end as int, marker))
                        =~= strings_view(tags@) + seq![tag@] + tags_from(s@, end as int, marker));
                }
                tags.push(tag);
            } else {
                proof {
                    let token = s@.subrange(i as int, end as int);
                    assert(tag_of_token(token, marker) =~= Seq::<Seq<char>>::empty());
                    assert(tag_of_token(token, marker) + tags_from(s@, end as int, marker)
                        =~= tags_from(s@, end as int, marker));
                }
            }
            i = end;
        }
    }
    proof {
        assert(strings_view(tags@) + tags_from(s@, n as int, marker) =~= strings_view(tags@));
    }
    tags
}

/// `s` without the white space at its start.
pub open spec fn trim_start(s: Seq<char>) -> Seq<char>
    decreases s.len(),
{
    if s.len() > 0 && is_space(s[0]) {
        trim_start(s.skip(1))
    } else {
        s
    }
}

/// `s` without the white space at its end.
pub open spec fn trim_end(s: Seq<char>) -> Seq<char>
    decreases s.len(),
{
    if s.len() > 0 && is_space(s.last()) {
        trim_end(s.drop_last())
    } else {
        s
    }
}

/// `s` without the white space at its start and at its end.
pub open spec fn trim(s: Seq<char>) -> Seq<char> {
    trim_end(trim_start(s))
}

/// Dropping white space from the start of a text, one character at a time.
pub proof fn lemma_trim_start(s: Seq<char>, k: int)
    requires
        0 <= k <= s.len(),
        forall|j: int| 0 <= j < k ==> is_space(s[j]),
    ensures
        trim_start(s) == trim_start(s.skip(k)),
    decreases k,
{
    if k > 0 {
        lemma_trim_start(s.skip(1), k - 1);
        assert(s.skip(1).skip(k - 1) =~= s.skip(k));
    } else {
        assert(s.skip(0) =~= s);
    }
}

/// Dropping white space from the end of a text, one character at a time.
pub proof fn lemma_trim_end(s: Seq<char>, k: int)
    requires
        0 <= k <= s.len(),
        forall|j: int| k <= j < s.len() ==> is_space(s[j]),
    ensures
        trim_end(s) == trim_end(s.take(k)),
    decreases s.len() - k,
{
    if k < s.len() {
        lemma_trim_end(s.drop_last(), k);
        assert(s.drop_last().take(k) =~= s.take(k));
    } else {
        assert(s.take(k) =~= s);
    }
}

/// The characters of `s` from `from` up to `to`, without the white space at
/// their start and at their end.
pub fn trimmed(s: &Vec<char>, from: usize, to: usize) -> (line: Vec<char>)
    requires
        from <= to <= s.len(),
    ensures
        line@ == trim(s@.subrange(from as int, to as int)),
{
    let ghost whole = s@.subrange(from as int, to as int);
    let mut a: usize = from;
    while a < to && is_space_char(s[a])
        invariant
            from <= a <= to <= s.len(),
            forall|j: int| from <= j < a ==> is_space(s@[j]),
        decreases to - a,
    {
        a += 1;
    }
    let mut b: usize = to;
    while b > a && is_space_char(s[b - 1])
        invariant
            a <= b <= to <= s.len(),
            forall|j: int| b <= j < to ==> is_space(s@[j]),
        decreases b,
    {
        b -= 1;
    }
    proof {
        lemma_trim_start(whole, a - from);
        let rest = whole.skip(a - from);
        assert(rest =~= s@.subrange(a as int, to as int));
        assert(trim_start(rest) == rest);
        lemma_trim_end(rest, b - a);
        let kept = rest.take(b - a);
        assert(kept =~= s@.subrange(a as int, b as int));
        assert(trim_end(kept) == kept);
    }
    let mut line: Vec<char> = Vec::new();
    let mut i: usize = a;
    while i < b
        invariant
            a <= i <= b <= s.len(),
            line@ == s@.subrange(a as int, i as int),
        decreases b - i,
    {
        line.push(s[i]);
        proof {
            assert(s@.subrange(a as int, i as int).push(s@[i as int]) =~= s@.subrange(
                a as int,
                i + 1,
            ));
        }
        i += 1;
    }
    line
}

/// The index at which the line that holds index `from` ends: that of the
/// first line feed at `from` or later, or the length of `s`.
pub open spec fn line_end(s: Seq<char>, from: int) -> int
    decreases s.len() - from,
{
    if from < 0 || from >= s.len() || s[from] == '\n' {
        from
    } else {
        line_end(s, from + 1)
    }
}

/// The lines of `s` that hold a task, from the line that starts at `from` on:
/// each line without the white space around it, but for those of which
/// nothing is left.
pub open spec fn task_lines_from(s: Seq<char>, from: int) -> Seq<Seq<char>>
    decreases s.len() - from,
{
    if from < 0 || from > s.len() {
        Seq::empty()
    } else {
        let end = line_end(s, from);
        let line = trim(s.subrange(from, end));
        let first = if line.len() > 0 {
            seq![line]
        } else {
            Seq::empty()
        };
        if from <= end < s.len() {
            first + task_lines_from(s, end + 1)
        } else {
            first
        }
    }
}

/// The lines of the file `s` that hold a task, in the order of the file.
pub open spec fn task_lines(s: Seq<char>) -> Seq<Seq<char>> {
    task_lines_from(s, 0)
}

/// A run without a line feed that ends at a line feed, or at the end of the
/// text, ends where its line ends.
pub proof fn lemma_line_end(s: Seq<char>, from: int, end: int)
    requires
        0 <= from <= end <= s.len(),
        forall|j: int| from <= j < end ==> s[j] != '\n',
        end == s.len() || s[end] == '\n',
    ensures
        line_end(s, from) == end,
    decreases end - from,
{
    if from < end {
        lemma_line_end(s, from + 1, end);
    }
}

/// There are no more task lines than half the characters, and one.
pub proof fn lemma_task_lines_len(s: Seq<char>, from: int)
    requires
        0 <= from <= s.len(),
    ensures
        2 * task_lines_from(s, from).len() <= s.len() - from + 1,
    decreases s.len() - from,
{
    let end = line_end(s, from);
    lemma_line_end_bounds(s, from);
    let line = trim(s.subrange(from, end));
    lemma_trim_len(s.subrange(from, end));
    if from <= end < s.len() {
        lemma_task_lines_len(s, end + 1);
    }
}

/// A line ends at or after the index at which it is asked for.
pub proof fn lemma_line_end_bounds(s: Seq<char>, from: int)
    requires
        0 <= from <= s.len(),
    ensures
        from <= line_end(s, from) <= s.len(),
    decreases s.len() - from,
{
    if from < s.len() && s[from] != '\n' {
        lemma_line_end_bounds(s, from + 1);
    }
}

/// A text without the white space around it is no longer than the text.
pub proof fn lemma_trim_len(s: Seq<char>)
    ensures
        trim(s).len() <= s.len(),
{
    lemma_trim_start_len(s);
    lemma_trim_end_len(trim_start(s));
}

/// A text without the white space at its start is no longer than the text.
pub proof fn lemma_trim_start_len(s: Seq<char>)
    ensures
        trim_start(s).len() <= s.len(),
    decreases s.len(),
{
    if s.len() > 0 && is_space(s[0]) {
        lemma_trim_start_len(s.skip(1));
    }
}

/// A text without the white space at its end is no longer than the text.
pub proof fn lemma_trim_end_len(s: Seq<char>)
    ensures
        trim_end(s).len() <= s.len(),
    decreases s.len(),
{
    if s.len() > 0 && is_space(s.last()) {
        lemma_trim_end_len(s.drop_last());
    }
}

} // verus!
