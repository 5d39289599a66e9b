//! Character-level helpers on strings.

use vstd::prelude::*;

verus! {

/// `needle` occurs in `hay` as a contiguous run of characters.
pub open spec fn has_substring(hay: Seq<char>, needle: Seq<char>) -> bool {
    exists|i: int|
        0 <= i <= hay.len() - needle.len() && #[trigger] hay.subrange(i, i + needle.len()) == needle
}

/// The characters of `s`, in order.
pub fn chars_of(s: &str) -> (res: Vec<char>)
    ensures
        res@ == s@,
{
    let mut res: Vec<char> = Vec::new();
    for c in it: s.chars()
        invariant
            res@ == it.seq().take(it.index() as int),
    {
        res.push(c);
    }
    res
}


/// Whatever text stands before and after it, `needle` occurs in
/// `a + needle + b`: at the start, in the middle, at the end, or as the whole.
pub proof fn lemma_substring_of_parts(a: Seq<char>, needle: Seq<char>, b: Seq<char>)
    ensures
        has_substring(a + needle + b, needle),
{
    let hay = a + needle + b;
    let i = a.len() as int;
    assert(hay.subrange(i, i + needle.len()) =~= needle);
}

/// When `needle` occurs in `hay`, `hay` splits into some text, `needle`, and
/// some more text.
pub proof fn lemma_substring_splits(hay: Seq<char>, needle: Seq<char>)
    requires
        has_substring(hay, needle),
    ensures
        exists|a: Seq<char>, b: Seq<char>| hay == #[trigger] (a + needle + b),
{
    let i = choose|i: int|
        0 <= i <= hay.len() - needle.len() && #[trigger] hay.subrange(i, i + needle.len())
            == needle;
    let a = hay.take(i);
    let b = hay.skip(i + needle.len());
    assert(hay =~= a + needle + b);
}

/// A needle longer than the text never occurs in it; the empty needle occurs
/// in every text.
pub proof fn lemma_substring_lengths(hay: Seq<char>, needle: Seq<char>)
    ensures
        needle.len() > hay.len() ==> !has_substring(hay, needle),
        has_substring(hay, Seq::empty()),
{
    lemma_substring_of_parts(Seq::empty(), Seq::empty(), hay);
    assert(Seq::<char>::empty() + Seq::<char>::empty() + hay =~= hay);
}

} // verus!

verus! {

/// Whether `needle` occurs in `hay` at position `at`.
fn occurs_at(hay: &Vec<char>, needle: &Vec<char>, at: usize) -> (res: bool)
    requires
        at + needle@.len() <= hay@.len(),
    ensures
        res == (hay@.subrange(at as int, at + needle@.len()) == needle@),
{
    let hay_len = hay.len();
    let mut k: usize = 0;
    while k < needle.len()
        invariant
            hay_len == hay@.len(),
            k <= needle@.len(),
            at + needle@.len() <= hay@.len(),
            forall|m: int| 0 <= m < k ==> hay@[at + m] == needle@[m],
        decreases needle@.len() - k,
    {
        assert(at + k < hay@.len());
        if hay[at + k] != needle[k] {
            assert(hay@.subrange(at as int, at + needle@.len())[k as int] != needle@[k as int]);
            return false;
        }
        k = k + 1;
    }
    assert(hay@.subrange(at as int, at + needle@.len()) =~= needle@);
    true
}

/// Substring search on characters: does `needle` occur somewhere in `hay`?
pub fn contains_chars(hay: &Vec<char>, needle: &Vec<char>) -> (res: bool)
    ensures
        res == has_substring(hay@, needle@),
{
    if needle.len() > hay.len() {
        return false;
    }
    let last: usize = hay.len() - needle.len();
    let mut i: usize = 0;
    loop
        invariant
            i <= last,
            last == hay@.len() - needle@.len(),
            needle@.len() <= hay@.len(),
            forall|j: int| 0 <= j < i ==> #[trigger] hay@.subrange(j, j + needle@.len()) != needle@,
        decreases last - i,
    {
        if occurs_at(hay, needle, i) {
            return true;
        }
        if i == last {
            return false;
        }
        i = i + 1;
    }
}

} // verus!
