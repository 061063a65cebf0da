//! Project paths: a project tag read as a sequence of segments that the
//! reserved separator divides.
//!
//! A tag is split at each leftmost occurrence of the separator that does not
//! overlap an earlier one. Empty segments are kept: a leading, trailing or
//! doubled separator gives a segment that is the empty text.

use vstd::prelude::*;

verus! {

/// The text that divides a project tag into the segments of its path.
pub const PROJECT_SEPARATOR: &'static str = "---";

/// The separator as a sequence of characters.
pub open spec fn separator() -> Seq<char> {
    seq!['-', '-', '-']
}

/// A separator starts at index `i` of `s`.
pub open spec fn sep_at(s: Seq<char>, i: int) -> bool {
    &&& 0 <= i
    &&& i + 3 <= s.len()
    &&& s[i] == '-'
    &&& s[i + 1] == '-'
    &&& s[i + 2] == '-'
}

/// The index of the first separator of `s` that starts at `from` or later,
/// or -1 where there is none.
pub open spec fn find_sep(s: Seq<char>, from: int) -> int
    decreases s.len() - from,
{
    if from < 0 || from + 3 > s.len() {
        -1
    } else if sep_at(s, from) {
        from
    } else {
        find_sep(s, from + 1)
    }
}

/// The segments of the tag `s`, in order. There is always at least one.
pub open spec fn split_path(s: Seq<char>) -> Seq<Seq<char>>
    decreases s.len(),
{
    let i = find_sep(s, 0);
    if i < 0 || i + 3 > s.len() {
        seq![s]
    } else {
        seq![s.take(i)] + split_path(s.skip(i + 3))
    }
}

/// The segments of `p` with a separator between each two neighbours.
pub open spec fn join_path(p: Seq<Seq<char>>) -> Seq<char>
    decreases p.len(),
{
    if p.len() == 0 {
        Seq::empty()
    } else if p.len() == 1 {
        p[0]
    } else {
        join_path(p.drop_last()) + separator() + p.last()
    }
}

/// The view of a vector of segments.
pub open spec fn segments_view(v: Seq<Vec<char>>) -> Seq<Seq<char>> {
    Seq::new(v.len(), |i: int| v[i]@)
}

/// `find_sep` finds the first separator at or after `from`, if there is one.
pub proof fn lemma_find_sep(s: Seq<char>, from: int)
    requires
        0 <= from,
    ensures
        find_sep(s, from) == -1 || (from <= find_sep(s, from) && sep_at(s, find_sep(s, from))),
        forall|j: int| from <= j && (j < find_sep(s, from) || find_sep(s, from) == -1) ==> !sep_at(s, j),
    decreases s.len() - from,
{
    if from + 3 > s.len() {
    } else if sep_at(s, from) {
    } else {
        lemma_find_sep(s, from + 1);
    }
}

/// A separator with none before it is the one that `find_sep` finds.
pub proof fn lemma_find_sep_is(s: Seq<char>, i: int)
    requires
        sep_at(s, i),
        forall|j: int| 0 <= j < i ==> !sep_at(s, j),
    ensures
        find_sep(s, 0) == i,
{
    lemma_find_sep(s, 0);
}

/// Without a separator `find_sep` finds none.
pub proof fn lemma_find_sep_none(s: Seq<char>)
    requires
        forall|j: int| 0 <= j ==> !sep_at(s, j),
    ensures
        find_sep(s, 0) == -1,
{
    lemma_find_sep(s, 0);
}

/// A path never has zero segments.
pub proof fn lemma_split_nonempty(s: Seq<char>)
    ensures
        split_path(s).len() >= 1,
    decreases s.len(),
{
    let i = find_sep(s, 0);
    if i < 0 || i + 3 > s.len() {
    } else {
        lemma_split_nonempty(s.skip(i + 3));
    }
}

/// Joining a first segment to the segments that follow it.
pub proof fn lemma_join_first(a: Seq<char>, q: Seq<Seq<char>>)
    requires
        q.len() >= 1,
    ensures
        join_path(seq![a] + q) == a + separator() + join_path(q),
    decreases q.len(),
{
    let p = seq![a] + q;
    assert(p.drop_last() =~= seq![a] + q.drop_last());
    assert(p.last() == q.last());
    if q.len() == 1 {
        assert(p.drop_last() =~= seq![a]);
        assert(join_path(p.drop_last()) == a);
        assert(join_path(q) == q[0]);
    } else {
        lemma_join_first(a, q.drop_last());
        assert(join_path(p) =~= a + separator() + join_path(q));
    }
}

/// Joining the segments of a tag gives the tag back.
pub proof fn lemma_join_split(s: Seq<char>)
    ensures
        join_path(split_path(s)) == s,
    decreases s.len(),
{
    let i = find_sep(s, 0);
    if i < 0 || i + 3 > s.len() {
    } else {
        lemma_find_sep(s, 0);
        let rest = s.skip(i + 3);
        lemma_join_split(rest);
        lemma_split_nonempty(rest);
        lemma_join_first(s.take(i), split_path(rest));
        assert(s.take(i) + separator() + rest =~= s);
    }
}

/// The first segments of a tag's path, joined, split into themselves again.
pub proof fn lemma_split_join_prefix(s: Seq<char>, p: Seq<Seq<char>>)
    requires
        p.len() >= 1,
        p.is_prefix_of(split_path(s)),
    ensures
        split_path(join_path(p)) == p,
    decreases s.len(),
{
    let i = find_sep(s, 0);
    lemma_find_sep(s, 0);
    if i < 0 || i + 3 > s.len() {
        assert(p =~= seq![s]);
    } else {
        let a = s.take(i);
        let rest = s.skip(i + 3);
        assert(p[0] == split_path(s)[0]);
        let q = p.skip(1);
        assert(p =~= seq![a] + q);
        if q.len() == 0 {
            assert(p =~= seq![a]);
            assert forall|j: int| 0 <= j implies !sep_at(a, j) by {
                if sep_at(a, j) {
                    assert(sep_at(s, j));
                }
            }
            lemma_find_sep_none(a);
        } else {
            assert(q.is_prefix_of(split_path(rest))) by {
                assert forall|k: int| 0 <= k < q.len() implies q[k] == split_path(rest)[k] by {
                    assert(q[k] == p[k + 1]);
                    assert(p[k + 1] == split_path(s)[k + 1]);
                }
            }
            lemma_split_join_prefix(rest, q);
            lemma_join_first(a, q);
            let u = join_path(p);
            assert(u == a + separator() + join_path(q));
            assert(sep_at(u, i));
            assert forall|j: int| 0 <= j < i implies !sep_at(u, j) by {
                if sep_at(u, j) {
                    assert(u[j] == s[j] && u[j + 1] == s[j + 1] && u[j + 2] == s[j + 2]);
                    assert(sep_at(s, j));
                }
            }
            lemma_find_sep_is(u, i);
            assert(u.take(i) =~= a);
            assert(u.skip(i + 3) =~= join_path(q));
        }
    }
}

/// Splits a tag into the segments of its path.
pub fn split_segments(tag: &Vec<char>) -> (segments: Vec<Vec<char>>)
    ensures
        segments_view(segments@) == split_path(tag@),
        segments.len() >= 1,
{
    let n = tag.len();
    let mut segments: Vec<Vec<char>> = Vec::new();
    let mut current: Vec<char> = Vec::new();
    let mut k: usize = 0;
    let ghost mut start: int = 0;
    proof {
        assert(tag@.skip(0) =~= tag@);
        assert(segments_view(segments@) + split_path(tag@) =~= split_path(tag@));
    }
    while k < n
        invariant
            n == tag.len(),
            0 <= start <= k <= n,
            current@ == tag@.subrange(start, k as int),
            forall|j: int| start <= j < k ==> !sep_at(tag@, j),
            split_path(tag@) == segments_view(segments@) + split_path(tag@.skip(start)),
        decreases n - k,
    {
        if n - k >= 3 && tag[k] == '-' && tag[k + 1] == '-' && tag[k + 2] == '-' {
            proof {
                let tail = tag@.skip(start);
                let i = k - start;
                assert(sep_at(tail, i));
                assert forall|j: int| 0 <= j < i implies !sep_at(tail, j) by {
                    if sep_at(tail, j) {
                        assert(sep_at(tag@, start + j));
                    }
                }
                lemma_find_sep_is(tail, i);
                assert(tail.take(i) =~= current@);
                assert(tail.skip(i + 3) =~= tag@.skip(k + 3));
                assert(segments_view(segments@.push(current)) =~= segments_view(segments@) + seq![
                    current@,
                ]);
            }
            segments.push(current);
            current = Vec::new();
            k += 3;
            proof {
                start = k as int;
            }
        } else {
            current.push(tag[k]);
            k += 1;
        }
    }
    proof {
        let tail = tag@.skip(start);
        assert forall|j: int| 0 <= j implies !sep_at(tail, j) by {
            if sep_at(tail, j) {
                assert(sep_at(tag@, start + j));
            }
        }
        lemma_find_sep_none(tail);
        assert(tail =~= current@);
        assert(segments_view(segments@.push(current)) =~= segments_view(segments@) + seq![
            current@,
        ]);
    }
    segments.push(current);
    segments
}

} // verus!
