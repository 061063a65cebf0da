//! Characters and character sequences: the classes of characters the line
//! format distinguishes, and conversions between strings and vectors of
//! characters.

use vstd::prelude::*;

verus! {

/// The characters that separate tokens: the Unicode `White_Space` code points.
pub open spec fn is_space(c: char) -> bool {
    let u = c as u32;
    ||| 0x09 <= u <= 0x0d
    ||| u == 0x20
    ||| u == 0x85
    ||| u == 0xa0
    ||| u == 0x1680
    ||| 0x2000 <= u <= 0x200a
    ||| u == 0x2028
    ||| u == 0x2029
    ||| u == 0x202f
    ||| u == 0x205f
    ||| u == 0x3000
}

/// Tells whether `c` separates tokens.
pub fn is_space_char(c: char) -> (b: bool)
    ensures
        b == is_space(c),
{
    let u: u32 = c as u32;
    (0x09 <= u && u <= 0x0d) || u == 0x20 || u == 0x85 || u == 0xa0 || u == 0x1680 || (0x2000 <= u
        && u <= 0x200a) || u == 0x2028 || u == 0x2029 || u == 0x202f || u == 0x205f || u == 0x3000
}

/// The view of a sequence of texts.
pub open spec fn strings_view(v: Seq<String>) -> Seq<Seq<char>> {
    Seq::new(v.len(), |i: int| v[i]@)
}

/// A copy of the texts of `v`.
pub fn clone_strings(v: &Vec<String>) -> (copy: Vec<String>)
    ensures
        strings_view(copy@) == strings_view(v@),
{
    let mut copy: Vec<String> = Vec::new();
    let mut i: usize = 0;
    while i < v.len()
        invariant
            i <= v.len(),
            strings_view(copy@) =~= strings_view(v@).take(i as int),
        decreases v.len() - i,
    {
        let text = v[i].clone();
        proof {
            assert(strings_view(copy@.push(text)) =~= strings_view(copy@).push(text@));
        }
        copy.push(text);
        i += 1;
    }
    copy
}

/// The characters of `s`, in order.
pub fn chars_of(s: &str) -> (v: Vec<char>)
    ensures
        v@ == s@,
{
    let mut v: Vec<char> = Vec::new();
    for c in it: s.chars()
        invariant
            v@ == it.seq().take(it.index() as int),
    {
        v.push(c);
    }
    v
}

/// How one text stands to another in the order of the dictionary.
#[derive(Clone, Copy, Debug, PartialEq, Eq)]
pub enum Precedence {
    Before,
    Same,
    After,
}

/// `a` comes before `b` in the order of the dictionary: at the first place
/// where they differ `a` has the character with the smaller code, or `a` ends
/// there and `b` goes on.
pub open spec fn lex_lt(a: Seq<char>, b: Seq<char>) -> bool {
    exists|k: int| lex_lt_at(a, b, k)
}

/// `a` and `b` agree before index `k`, and at `k` the text `a` ends or has the
/// smaller character.
pub open spec fn lex_lt_at(a: Seq<char>, b: Seq<char>, k: int) -> bool {
    &&& 0 <= k <= a.len()
    &&& k < b.len()
    &&& forall|j: int| 0 <= j < k ==> a[j] == b[j]
    &&& k < a.len() ==> (a[k] as u32) < (b[k] as u32)
}

/// No text comes before itself.
pub proof fn lemma_lex_lt_irreflexive(a: Seq<char>)
    ensures
        !lex_lt(a, a),
{
}

/// The order of the dictionary is transitive.
pub proof fn lemma_lex_lt_transitive(a: Seq<char>, b: Seq<char>, c: Seq<char>)
    requires
        lex_lt(a, b),
        lex_lt(b, c),
    ensures
        lex_lt(a, c),
{
    let k1 = choose|k: int| lex_lt_at(a, b, k);
    let k2 = choose|k: int| lex_lt_at(b, c, k);
    let k = if k1 <= k2 {
        k1
    } else {
        k2
    };
    assert(lex_lt_at(a, c, k));
}

/// Of two texts at most one comes before the other.
pub proof fn lemma_lex_lt_asymmetric(a: Seq<char>, b: Seq<char>)
    requires
        lex_lt(a, b),
    ensures
        !lex_lt(b, a),
{
    if lex_lt(b, a) {
        lemma_lex_lt_transitive(a, b, a);
        lemma_lex_lt_irreflexive(a);
    }
}

/// Of two texts one comes before the other, or they are the same text.
pub proof fn lemma_lex_lt_total(a: Seq<char>, b: Seq<char>)
    ensures
        lex_lt(a, b) || a == b || lex_lt(b, a),
{
    lemma_lex_lt_total_from(a, b, 0);
}

/// Two texts that agree before index `k` are the same, or one comes before
/// the other.
proof fn lemma_lex_lt_total_from(a: Seq<char>, b: Seq<char>, k: int)
    requires
        0 <= k <= a.len(),
        k <= b.len(),
        forall|j: int| 0 <= j < k ==> a[j] == b[j],
    ensures
        lex_lt(a, b) || a == b || lex_lt(b, a),
    decreases a.len() - k,
{
    if k == a.len() {
        if k == b.len() {
            assert(a =~= b);
        } else {
            assert(lex_lt_at(a, b, k));
        }
    } else if k == b.len() {
        assert(lex_lt_at(b, a, k));
    } else if a[k] == b[k] {
        lemma_lex_lt_total_from(a, b, k + 1);
    } else {
        vstd::utf8::char_u32_cast(a[k], a[k] as u32);
        vstd::utf8::char_u32_cast(b[k], b[k] as u32);
        if (a[k] as u32) < (b[k] as u32) {
            assert(lex_lt_at(a, b, k));
        } else {
            assert(lex_lt_at(b, a, k));
        }
    }
}

/// Compares two texts in the order of the dictionary.
pub fn compare_chars(a: &Vec<char>, b: &Vec<char>) -> (r: Precedence)
    ensures
        r == Precedence::Before <==> lex_lt(a@, b@),
        r == Precedence::Same <==> a@ == b@,
        r == Precedence::After <==> lex_lt(b@, a@),
{
    let mut i: usize = 0;
    while i < a.len() && i < b.len()
        invariant
            i <= a.len(),
            i <= b.len(),
            forall|j: int| 0 <= j < i ==> a@[j] == b@[j],
        decreases a.len() - i,
    {
        let x: u32 = a[i] as u32;
        let y: u32 = b[i] as u32;
        proof {
            vstd::utf8::char_u32_cast(a@[i as int], x);
            vstd::utf8::char_u32_cast(b@[i as int], y);
        }
        if x < y {
            proof {
                assert(lex_lt_at(a@, b@, i as int));
                lemma_lex_lt_asymmetric(a@, b@);
            }
            return Precedence::Before;
        }
        if y < x {
            proof {
                assert(lex_lt_at(b@, a@, i as int));
                lemma_lex_lt_asymmetric(b@, a@);
            }
            return Precedence::After;
        }
        i += 1;
    }
    if i < b.len() {
        proof {
            assert(lex_lt_at(a@, b@, i as int));
            lemma_lex_lt_asymmetric(a@, b@);
        }
        Precedence::Before
    } else if i < a.len() {
        proof {
            assert(lex_lt_at(b@, a@, i as int));
            lemma_lex_lt_asymmetric(b@, a@);
        }
        Precedence::After
    } else {
        proof {
            assert(a@ =~= b@);
            lemma_lex_lt_irreflexive(a@);
        }
        Precedence::Same
    }
}

/// The text that holds the characters of `v`, in order.
pub fn text_of(v: &Vec<char>) -> (s: String)
    ensures
        s@ == v@,
{
    let mut s = String::new();
    let mut i: usize = 0;
    while i < v.len()
        invariant
            i <= v.len(),
            s@ == v@.take(i as int),
        decreases v.len() - i,
    {
        s.push(v[i]);
        i += 1;
    }
    s
}

/// `String::push` of std appends one character to the text.
pub assume_specification[ String::push ](s: &mut String, c: char)
    ensures
        final(s)@ == old(s)@.push(c),
;

} // verus!
