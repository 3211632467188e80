//! The word model: five-letter lowercase words, letter indexing, and
//! letter-occurrence counting.

use vstd::prelude::*;
use vstd::string::StrSliceExecFns;

verus! {

/// Number of letters in a word.
pub const WORD_LEN: usize = 5;

/// Number of letters in the alphabet.
pub const ALPHABET: usize = 26;

/// A lowercase letter of the alphabet.
pub open spec fn is_lower(c: char) -> bool {
    'a' <= c && c <= 'z'
}

/// A well-formed word: exactly five lowercase letters.
pub open spec fn word_wf(w: Seq<char>) -> bool {
    &&& w.len() == WORD_LEN
    &&& forall|i: int| 0 <= i < w.len() ==> is_lower(#[trigger] w[i])
}

/// The alphabet index of a lowercase letter: 0 for 'a' through 25 for 'z'.
pub open spec fn spec_letter_index(c: char) -> int {
    c as int - 'a' as int
}

/// The lowercase letter with the given alphabet index.
pub open spec fn spec_letter_of(i: int) -> char {
    ((i + 'a' as int) as u8) as char
}

/// Number of occurrences of the letter `c` in the word `w`.
pub open spec fn count_in(w: Seq<char>, c: char) -> nat
    decreases w.len(),
{
    if w.len() == 0 {
        0
    } else {
        count_in(w.drop_last(), c) + if w.last() == c {
            1nat
        } else {
            0nat
        }
    }
}

/// The alphabet index of a lowercase letter, executable form.
pub fn letter_index(c: char) -> (i: usize)
    requires
        is_lower(c),
    ensures
        i == spec_letter_index(c),
        i < ALPHABET,
{
    (c as u8 - ('a' as u8)) as usize
}

/// The lowercase letter with the given alphabet index, executable form.
pub fn letter_of(i: usize) -> (c: char)
    requires
        i < ALPHABET,
    ensures
        c == spec_letter_of(i as int),
        is_lower(c),
        spec_letter_index(c) == i,
{
    (i as u8 + ('a' as u8)) as char
}

/// Counts how often the letter `c` occurs in `word`.
pub fn count_letter(word: &String, c: char) -> (n: usize)
    ensures
        n == count_in(word@, c),
{
    let len = word.as_str().unicode_len();
    let mut n: usize = 0;
    let mut i: usize = 0;
    while i < len
        invariant
            i <= len,
            len == word@.len(),
            n == count_in(word@.subrange(0, i as int), c),
            n <= i,
        decreases len - i,
    {
        let ch = word.as_str().get_char(i);
        proof {
            lemma_count_in_extend(word@, i as int, c);
        }
        if ch == c {
            n = n + 1;
        }
        i = i + 1;
    }
    proof {
        assert(word@.subrange(0, len as int) =~= word@);
    }
    n
}

/// Counting over a prefix grows by one exactly when the next character matches.
pub proof fn lemma_count_in_extend(w: Seq<char>, i: int, c: char)
    requires
        0 <= i < w.len(),
    ensures
        count_in(w.subrange(0, i + 1), c) == count_in(w.subrange(0, i), c) + if w[i] == c {
            1nat
        } else {
            0nat
        },
{
    let t = w.subrange(0, i + 1);
    assert(t.drop_last() =~= w.subrange(0, i));
    assert(t.last() == w[i]);
}

/// The occurrence count never exceeds the word length.
pub proof fn lemma_count_in_le_len(w: Seq<char>, c: char)
    ensures
        count_in(w, c) <= w.len(),
    decreases w.len(),
{
    if w.len() > 0 {
        lemma_count_in_le_len(w.drop_last(), c);
    }
}

/// Two unequal sequences of the same length differ at some index.
pub proof fn lemma_unequal_words_differ(a: Seq<char>, b: Seq<char>)
    requires
        a.len() == b.len(),
        a != b,
    ensures
        exists|i: int| 0 <= i < a.len() && a[i] != b[i],
{
    if forall|i: int| 0 <= i < a.len() ==> a[i] == #[trigger] b[i] {
        assert(a =~= b);
    }
}

/// The letter of an alphabet index is lowercase and maps back to it.
pub proof fn lemma_letter_index_roundtrip(i: int)
    requires
        0 <= i < ALPHABET,
    ensures
        is_lower(spec_letter_of(i)),
        spec_letter_index(spec_letter_of(i)) == i,
{
}

} // verus!
