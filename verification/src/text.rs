//! Text as a sequence of characters: comparing, searching, cutting and gluing.
use vstd::prelude::*;

verus! {

/// The first index of `c` in `text`, or the length of `text` if it is absent.
pub open spec fn find_char(text: Seq<char>, c: char) -> int
    decreases text.len(),
{
    if text.len() == 0 || text[0] == c {
        0
    } else {
        1 + find_char(text.skip(1), c)
    }
}

/// `needle` occurs in `text`.
pub open spec fn occurs_in(needle: Seq<char>, text: Seq<char>) -> bool {
    exists|i: int| #[trigger] occurs_at(needle, text, i)
}

/// `needle` occurs in `text` at index `i`.
pub open spec fn occurs_at(needle: Seq<char>, text: Seq<char>, i: int) -> bool {
    &&& 0 <= i
    &&& i + needle.len() <= text.len()
    &&& text.subrange(i, i + needle.len()) == needle
}

/// `find_char` is the length of the longest prefix without `c`.
pub proof fn lemma_find_char(text: Seq<char>, c: char)
    ensures
        0 <= find_char(text, c) <= text.len(),
        forall|i: int| 0 <= i < find_char(text, c) ==> text[i] != c,
        find_char(text, c) < text.len() ==> text[find_char(text, c)] == c,
    decreases text.len(),
{
    if text.len() == 0 || text[0] == c {
    } else {
        let rest = text.skip(1);
        lemma_find_char(rest, c);
        assert forall|i: int| 0 <= i < find_char(text, c) implies text[i] != c by {
            if i > 0 {
                assert(text[i] == rest[i - 1]);
            }
        }
    }
}

/// An index before which there is no `c`, and at which there is one or the
/// text ends, is what `find_char` gives.
pub proof fn lemma_find_char_unique(text: Seq<char>, c: char, n: int)
    requires
        0 <= n <= text.len(),
        forall|i: int| 0 <= i < n ==> text[i] != c,
        n < text.len() ==> text[n] == c,
    ensures
        find_char(text, c) == n,
{
    lemma_find_char(text, c);
    let m = find_char(text, c);
    if m < n {
        assert(text[m] != c);
    } else if n < m {
        assert(text[n] != c);
    }
}

/// The characters of a string.
pub(crate) fn chars_of(text: &str) -> (res: Vec<char>)
    ensures
        res@ == text@,
{
    let mut chars: Vec<char> = Vec::new();
    for c in it: text.chars()
        invariant
            chars@.len() == it.index(),
            it.seq() == text@,
            forall|j: int| 0 <= j < it.index() ==> chars@[j] == it.seq()[j],
    {
        chars.push(c);
    }
    chars
}

/// Whether two strings hold the same characters.
pub(crate) fn same_text(a: &str, b: &str) -> (res: bool)
    ensures
        res == (a@ == b@),
{
    a.to_owned() == b.to_owned()
}

/// Whether one list of characters occurs in another.
pub(crate) fn occurs(needle: &Vec<char>, text: &Vec<char>) -> (res: bool)
    ensures
        res == occurs_in(needle@, text@),
{
    if needle.len() > text.len() {
        assert(forall|i: int| !occurs_at(needle@, text@, i));
        return false;
    }
    let last: usize = text.len() - needle.len();
    let mut at: usize = 0;
    loop
        invariant
            needle.len() + last == text.len(),
            at <= last,
            forall|i: int| 0 <= i < at ==> !occurs_at(needle@, text@, i),
        decreases last - at,
    {
        let mut matched: usize = 0;
        while matched < needle.len() && text[at + matched] == needle[matched]
            invariant
                needle.len() + last == text.len(),
                at <= last,
                matched <= needle.len(),
                forall|j: int| 0 <= j < matched ==> text@[at + j] == needle@[j],
            decreases needle.len() - matched,
        {
            matched = matched + 1;
        }
        if matched == needle.len() {
            assert(text@.subrange(at as int, at + needle@.len()) =~= needle@);
            assert(occurs_at(needle@, text@, at as int));
            return true;
        }
        proof {
            if occurs_at(needle@, text@, at as int) {
                assert(text@.subrange(at as int, at + needle@.len())[matched as int]
                    == needle@[matched as int]);
            }
        }
        if at == last {
            return false;
        }
        at = at + 1;
    }
}

/// Whether a string starts with a character.
pub(crate) fn starts_with_char(text: &str, c: char) -> (res: bool)
    ensures
        res == (text@.len() > 0 && text@[0] == c),
{
    if text.is_empty() {
        false
    } else {
        text.get_char(0) == c
    }
}

/// The index of the first slash, or the number of characters if there is none.
pub(crate) fn find_slash(text: &str) -> (res: usize)
    ensures
        res == find_char(text@, '/'),
        res <= text@.len(),
{
    let chars = chars_of(text);
    let mut at: usize = 0;
    while at < chars.len() && chars[at] != '/'
        invariant
            chars@ == text@,
            at <= chars.len(),
            forall|i: int| 0 <= i < at ==> text@[i] != '/',
        decreases chars.len() - at,
    {
        at = at + 1;
    }
    proof {
        lemma_find_char_unique(text@, '/', at as int);
    }
    at
}

} // verus!
