//! Candidate filtering: reducing a word set to exactly those words that are
//! consistent with the current knowledge state, in their original order.

use vstd::prelude::*;
use vstd::string::StrSliceExecFns;
use crate::words::ALPHABET;
use crate::words::WORD_LEN;
use crate::words::count_letter;
use crate::words::is_lower;
use crate::words::letter_of;
use crate::words::spec_letter_index;
use crate::words::word_wf;
use crate::knowledge::Knowledge;
use crate::knowledge::KnownInfo;
use crate::knowledge::PositionInfo;
use crate::knowledge::consistent;
use crate::knowledge::count_fact_ok;
use crate::knowledge::derive_feedback;
use crate::knowledge::knowledge_wf;
use crate::knowledge::lemma_derive_preserves_target;
use crate::knowledge::pos_fact_ok;

verus! {

/// The predicate that the candidate filter applies: consistency with the
/// knowledge state `k`.
pub open spec fn consistent_with(k: Knowledge) -> spec_fn(Seq<char>) -> bool {
    |w: Seq<char>| consistent(w, k)
}

/// Whether the letter `c` occurs in the list `v`.
fn contains_char(v: &Vec<char>, c: char) -> (r: bool)
    ensures
        r == v@.contains(c),
{
    let mut i: usize = 0;
    while i < v.len()
        invariant
            i <= v@.len(),
            forall|j: int| 0 <= j < i ==> v@[j] != c,
        decreases v@.len() - i,
    {
        if v[i] == c {
            return true;
        }
        i = i + 1;
    }
    false
}

/// Decides whether `word` is consistent with every fact of `info`: every
/// position fact is obeyed and every letter's occurrence count fact holds.
pub fn is_consistent(word: &String, info: &KnownInfo) -> (r: bool)
    requires
        info.wf(),
        word_wf(word@),
    ensures
        r == consistent(word@, info@),
{
    let mut i: usize = 0;
    while i < WORD_LEN
        invariant
            i <= WORD_LEN,
            info.wf(),
            word_wf(word@),
            forall|j: int| 0 <= j < i ==> pos_fact_ok(#[trigger] info@.pos[j], word@[j]),
        decreases WORD_LEN - i,
    {
        let c = word.as_str().get_char(i);
        match &info.pos_info[i] {
            PositionInfo::Unconstrained => {},
            PositionInfo::Excluded(not_chars) => {
                if contains_char(not_chars, c) {
                    proof {
                        assert(!pos_fact_ok(info@.pos[i as int], word@[i as int]));
                    }
                    return false;
                }
            },
            PositionInfo::Fixed(is_char) => {
                if *is_char != c {
                    proof {
                        assert(!pos_fact_ok(info@.pos[i as int], word@[i as int]));
                    }
                    return false;
                }
            },
        }
        i = i + 1;
    }
    let mut j: usize = 0;
    while j < ALPHABET
        invariant
            j <= ALPHABET,
            info.wf(),
            word_wf(word@),
            forall|i: int| 0 <= i < WORD_LEN ==> pos_fact_ok(#[trigger] info@.pos[i], word@[i]),
            forall|c: char|
                is_lower(c) && spec_letter_index(c) < j ==> count_fact_ok(
                    #[trigger] info@.counts[c],
                    crate::words::count_in(word@, c),
                ),
        decreases ALPHABET - j,
    {
        let c = letter_of(j);
        let found_count = count_letter(word, c);
        if !info.get_count(c).is_enough(found_count) {
            return false;
        }
        proof {
            assert forall|cc: char|
                is_lower(cc) && spec_letter_index(cc) < j + 1 implies count_fact_ok(
                #[trigger] info@.counts[cc],
                crate::words::count_in(word@, cc),
            ) by {
                if spec_letter_index(cc) == spec_letter_index(c) {
                    assert(cc == c);
                }
            }
        }
        j = j + 1;
    }
    true
}

/// Keeps exactly the words consistent with `info`, in their original order.
/// The result never holds more words than the input: the candidate set can
/// only shrink.
pub fn get_possible_words(info: &KnownInfo, words: &Vec<String>) -> (r: Vec<String>)
    requires
        info.wf(),
        forall|i: int| 0 <= i < words@.len() ==> word_wf(#[trigger] words.deep_view()[i]),
    ensures
        r.deep_view() == words.deep_view().filter(consistent_with(info@)),
        r@.len() <= words@.len(),
{
    let ghost ws = words.deep_view();
    let ghost pred = consistent_with(info@);
    let mut possible_words: Vec<String> = Vec::new();
    proof {
        reveal(Seq::filter);
        assert(ws.subrange(0, 0) =~= Seq::<Seq<char>>::empty());
        assert(possible_words.deep_view() =~= ws.subrange(0, 0).filter(pred));
    }
    let mut k: usize = 0;
    while k < words.len()
        invariant
            k <= words@.len(),
            ws == words.deep_view(),
            ws.len() == words@.len(),
            info.wf(),
            pred == consistent_with(info@),
            forall|i: int| 0 <= i < ws.len() ==> word_wf(#[trigger] ws[i]),
            possible_words.deep_view() == ws.subrange(0, k as int).filter(pred),
            possible_words@.len() <= k,
        decreases words@.len() - k,
    {
        let word = &words[k];
        proof {
            assert(ws[k as int] == word@);
        }
        let ghost before = possible_words.deep_view();
        if is_consistent(word, info) {
            possible_words.push(word.clone());
            proof {
                assert(possible_words.deep_view() =~= before.push(word@));
            }
        }
        proof {
            lemma_filter_extend(ws, pred, k as int);
            assert(possible_words.deep_view() =~= ws.subrange(0, k + 1).filter(pred));
        }
        k = k + 1;
    }
    proof {
        assert(ws.subrange(0, ws.len() as int) =~= ws);
    }
    possible_words
}

/// Filtering one more word keeps the filtered prefix and appends the word
/// exactly when it satisfies the predicate.
pub proof fn lemma_filter_extend(s: Seq<Seq<char>>, pred: spec_fn(Seq<char>) -> bool, k: int)
    requires
        0 <= k < s.len(),
    ensures
        s.subrange(0, k + 1).filter(pred) == if pred(s[k]) {
            s.subrange(0, k).filter(pred).push(s[k])
        } else {
            s.subrange(0, k).filter(pred)
        },
{
    reveal(Seq::filter);
    let t = s.subrange(0, k + 1);
    assert(t.drop_last() =~= s.subrange(0, k));
    assert(t.last() == s[k]);
}

/// Everything the filter keeps was in the input.
pub proof fn lemma_filter_member<A>(s: Seq<A>, pred: spec_fn(A) -> bool, x: A)
    requires
        s.filter(pred).contains(x),
    ensures
        s.contains(x),
    decreases s.len(),
{
    reveal(Seq::filter);
    if s.len() > 0 {
        if s.drop_last().filter(pred).contains(x) {
            lemma_filter_member(s.drop_last(), pred, x);
            let i = choose|i: int| 0 <= i < s.drop_last().len() && s.drop_last()[i] == x;
            assert(s[i] == x);
        } else {
            assert(x == s.last());
            assert(s[s.len() - 1] == x);
        }
    }
}

/// A word that fails the predicate makes the filter output strictly shorter
/// than its input.
pub proof fn lemma_filter_strict<A>(s: Seq<A>, pred: spec_fn(A) -> bool, i: int)
    requires
        0 <= i < s.len(),
        !pred(s[i]),
    ensures
        s.filter(pred).len() < s.len(),
    decreases s.len(),
{
    reveal(Seq::filter);
    s.lemma_filter_len(pred);
    if i == s.len() - 1 {
        s.drop_last().lemma_filter_len(pred);
    } else {
        lemma_filter_strict(s.drop_last(), pred, i);
    }
}

/// Target retention: if the target is among the candidates and consistent
/// with the knowledge state, it is still among the candidates after the set
/// is filtered with feedback derived against that same target.
pub proof fn lemma_target_retained(g: Seq<char>, t: Seq<char>, k: Knowledge, ws: Seq<Seq<char>>)
    requires
        word_wf(t),
        knowledge_wf(k),
        consistent(t, k),
        ws.contains(t),
    ensures
        ws.filter(consistent_with(derive_feedback(g, t, k))).contains(t),
{
    lemma_derive_preserves_target(g, t, k);
    let i = choose|i: int| 0 <= i < ws.len() && ws[i] == t;
    ws.lemma_filter_contains(consistent_with(derive_feedback(g, t, k)), i);
}

} // verus!
