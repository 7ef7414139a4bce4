//! Character-level helpers: where a separator last occurs in a text, and
//! whether one text occurs inside another.

use vstd::prelude::*;

verus! {

/// The index of the last occurrence of `c` in `s`, or `-1` where `c` does
/// not occur.
pub open spec fn last_index_of(s: Seq<char>, c: char) -> int
    decreases s.len(),
{
    if s.len() == 0 {
        -1
    } else if s.last() == c {
        s.len() - 1
    } else {
        last_index_of(s.drop_last(), c)
    }
}

/// Whether `c` occurs nowhere in `s`.
pub open spec fn free_of(s: Seq<char>, c: char) -> bool {
    forall|j: int| 0 <= j < s.len() ==> s[j] != c
}

/// `last_index_of` is in range, points at an occurrence when it is not
/// `-1`, and no occurrence follows it.
pub proof fn lemma_last_index_of(s: Seq<char>, c: char)
    ensures
        -1 <= last_index_of(s, c) < s.len(),
        last_index_of(s, c) >= 0 ==> s[last_index_of(s, c)] == c,
        forall|j: int| last_index_of(s, c) < j < s.len() ==> s[j] != c,
    decreases s.len(),
{
    if s.len() > 0 && s.last() != c {
        let front = s.drop_last();
        lemma_last_index_of(front, c);
        assert forall|j: int| last_index_of(s, c) < j < s.len() implies s[j] != c by {
            if j < front.len() {
                assert(front[j] == s[j]);
            }
        }
    }
}

/// An occurrence of `c` at `i` with none after it is the last one.
pub proof fn lemma_last_index_is(s: Seq<char>, c: char, i: int)
    requires
        -1 <= i < s.len(),
        i >= 0 ==> s[i] == c,
        forall|j: int| i < j < s.len() ==> s[j] != c,
    ensures
        last_index_of(s, c) == i,
{
    lemma_last_index_of(s, c);
}

/// How often `c` occurs in `s`.
pub open spec fn count_of(s: Seq<char>, c: char) -> nat
    decreases s.len(),
{
    if s.len() == 0 {
        0
    } else if s.last() == c {
        count_of(s.drop_last(), c) + 1
    } else {
        count_of(s.drop_last(), c)
    }
}

/// A text without an occurrence of `c` counts none; otherwise the last
/// occurrence is one more than those before it.
pub proof fn lemma_count_at_last(s: Seq<char>, c: char)
    ensures
        last_index_of(s, c) < 0 ==> count_of(s, c) == 0,
        last_index_of(s, c) >= 0 ==> count_of(s, c) == count_of(
            s.subrange(0, last_index_of(s, c)),
            c,
        ) + 1,
    decreases s.len(),
{
    if s.len() > 0 {
        let front = s.drop_last();
        if s.last() == c {
            assert(s.subrange(0, s.len() - 1) =~= front);
        } else {
            lemma_count_at_last(front, c);
            lemma_last_index_of(front, c);
            let i = last_index_of(front, c);
            if i >= 0 {
                assert(front.subrange(0, i) =~= s.subrange(0, i));
            }
        }
    }
}

/// Whether `pat` stands in `text` at position `i`.
pub open spec fn occurs_at(pat: Seq<char>, text: Seq<char>, i: int) -> bool {
    &&& 0 <= i
    &&& i + pat.len() <= text.len()
    &&& text.subrange(i, i + pat.len()) =~= pat
}

/// Whether `pat` occurs in `text` as a contiguous run of characters. The
/// empty pattern occurs in every text.
pub open spec fn is_substring(pat: Seq<char>, text: Seq<char>) -> bool {
    exists|i: int| occurs_at(pat, text, i)
}

/// The empty pattern matches every candidate.
pub proof fn lemma_empty_is_substring(text: Seq<char>)
    ensures
        is_substring(Seq::<char>::empty(), text),
{
    assert(occurs_at(Seq::<char>::empty(), text, 0));
}

/// The characters of a string, in order.
pub fn chars_of(s: &str) -> (v: Vec<char>)
    ensures
        v@ == s@,
{
    broadcast use vstd::string::group_string_axioms;

    let mut v: Vec<char> = Vec::new();
    for c in it: s.chars()
        invariant
            it.seq() == s@,
            v@ == s@.subrange(0, it.index() as int),
    {
        v.push(c);
        assert(v@ =~= s@.subrange(0, it.index() + 1));
    }
    assert(v@ =~= s@);
    v
}

/// Tells whether two strings hold the same text.
pub fn same_text(a: &str, b: &str) -> (same: bool)
    ensures
        same == (a@ == b@),
{
    let left: String = a.to_owned();
    let right: String = b.to_owned();
    left == right
}

/// Tells whether `pat` occurs in `text`.
pub fn contains(text: &[char], pat: &[char]) -> (found: bool)
    ensures
        found == is_substring(pat@, text@),
{
    if pat.len() > text.len() {
        return false;
    }
    let last: usize = text.len() - pat.len();
    assert(text@.len() <= usize::MAX);
    let mut i: usize = 0;
    while i <= last
        invariant
            text@.len() <= usize::MAX,
            last == text@.len() - pat@.len(),
            i <= last + 1,
            forall|k: int| 0 <= k < i ==> !occurs_at(pat@, text@, k),
        decreases last + 1 - i,
    {
        let mut j: usize = 0;
        while j < pat.len() && text[i + j] == pat[j]
            invariant
                last == text@.len() - pat@.len(),
                text@.len() <= usize::MAX,
                i <= last,
                j <= pat@.len(),
                forall|k: int| 0 <= k < j ==> text@[i + k] == pat@[k],
            decreases pat@.len() - j,
        {
            j += 1;
        }
        if j == pat.len() {
            assert(occurs_at(pat@, text@, i as int));
            return true;
        }
        assert(!occurs_at(pat@, text@, i as int)) by {
            if occurs_at(pat@, text@, i as int) {
                assert(text@.subrange(i as int, i + pat@.len())[j as int] == pat@[j as int]);
            }
        }
        i += 1;
    }
    false
}

} // verus!
