//! The solving loop: repeated guess, feedback, and filter rounds against one
//! hidden target, until the target is guessed. The loop is proved to finish
//! within as many rounds as the dictionary has words.

use vstd::prelude::*;
use vstd::string::StrSliceExecFns;
use crate::words::WORD_LEN;
use crate::words::word_wf;
use crate::freq::LetterFreq;
use crate::freq::get_letter_freqs;
use crate::freq::lemma_counts_bounded;
use crate::freq::lemma_row_max_le;
use crate::knowledge::KnownInfo;
use crate::knowledge::consistent;
use crate::knowledge::Knowledge;
use crate::knowledge::initial_knowledge;
use crate::knowledge::knowledge_wf;
use crate::knowledge::derive_feedback;
use crate::knowledge::lemma_initial_consistent;
use crate::knowledge::lemma_derive_wf;
use crate::knowledge::lemma_derive_preserves_target;
use crate::knowledge::lemma_derive_eliminates_guess;
use crate::knowledge::make_guess;
use crate::filter::consistent_with;
use crate::filter::get_possible_words;
use crate::filter::lemma_filter_member;
use crate::filter::lemma_filter_strict;
use crate::score::get_best_word;
use crate::score::get_scores;
use crate::score::lemma_member_score_positive;
use crate::score::max_pos_sum;
use crate::score::scores_fit;
use crate::words::ALPHABET;
use crate::words::spec_letter_of;

verus! {

/// The largest dictionary a session accepts. The bound keeps the score
/// arithmetic, which grows with the square of the dictionary size, within
/// `usize` even where `usize` has 32 bits.
pub const MAX_DICT_WORDS: usize = 13000;

/// Why a session did not run, or could not finish.
#[derive(Clone, Copy, Debug, PartialEq, Eq, Structural)]
pub enum SolveError {
    /// The target does not have exactly five letters.
    InvalidTargetLength,
    /// The target is not a word of the supplied dictionary.
    TargetNotInDictionary,
    /// Filtering removed every candidate before the target was found. A
    /// session whose target is in the dictionary is proved never to reach
    /// this: the target always stays among the candidates.
    CandidateSetExhausted,
}

/// The record of one finished session.
pub struct SessionResult {
    /// How many guesses the session took.
    pub guess_count: usize,
    /// Every guess made, in order; the last one is the target.
    pub guesses: Vec<String>,
}

/// Whether the word `w` occurs in the dictionary.
fn dict_contains(words: &Vec<String>, w: &String) -> (r: bool)
    ensures
        r == words.deep_view().contains(w@),
{
    let mut i: usize = 0;
    while i < words.len()
        invariant
            i <= words@.len(),
            forall|j: int| 0 <= j < i ==> words.deep_view()[j] != w@,
        decreases words@.len() - i,
    {
        if words[i] == *w {
            proof {
                assert(words.deep_view()[i as int] == w@);
            }
            return true;
        }
        i = i + 1;
    }
    false
}

/// A word-for-word copy of the dictionary.
fn clone_words(words: &Vec<String>) -> (r: Vec<String>)
    ensures
        r.deep_view() == words.deep_view(),
        r@.len() == words@.len(),
{
    let mut r: Vec<String> = Vec::new();
    let mut i: usize = 0;
    while i < words.len()
        invariant
            i <= words@.len(),
            r@.len() == i,
            forall|j: int| 0 <= j < i ==> r.deep_view()[j] == words.deep_view()[j],
        decreases words@.len() - i,
    {
        r.push(words[i].clone());
        i = i + 1;
    }
    proof {
        assert(r.deep_view() =~= words.deep_view());
    }
    r
}

/// Statistics computed from a word set of bounded size keep the score
/// arithmetic within `usize`.
pub proof fn lemma_stats_fit(f: LetterFreq, ws: Seq<Seq<char>>)
    requires
        f.wf(),
        f.counts_of(ws),
        f.maxs_valid(),
        forall|i: int| 0 <= i < ws.len() ==> word_wf(#[trigger] ws[i]),
        ws.len() <= MAX_DICT_WORDS,
    ensures
        scores_fit(f),
{
    let n = ws.len() as int;
    lemma_counts_bounded(ws);
    assert forall|j: int| 0 <= j < ALPHABET implies #[trigger] f.totals@[j] <= WORD_LEN * n by {
        crate::words::lemma_letter_index_roundtrip(j);
        let c = spec_letter_of(j);
        assert(f.spec_total_count(c) == crate::freq::total_count_of(ws, c));
    }
    lemma_row_max_le(f.totals@, ALPHABET as int, WORD_LEN * n);
    assert(f.max_totals <= WORD_LEN * n);
    assert forall|p: int| 0 <= p < WORD_LEN implies #[trigger] f.max_positions@[p] <= n by {
        assert forall|j: int| 0 <= j < ALPHABET implies #[trigger] f.positions@[p]@[j] <= n by {
            crate::words::lemma_letter_index_roundtrip(j);
            let c = spec_letter_of(j);
            assert(f.spec_pos_count(p, c) == crate::freq::pos_count_of(ws, p, c));
        }
        lemma_row_max_le(f.positions@[p]@, ALPHABET as int, n);
    }
    assert(max_pos_sum(f, WORD_LEN as int) <= WORD_LEN * n) by {
        crate::score::lemma_max_pos_sum_mono(f, WORD_LEN as int);
        assert(max_pos_sum(f, 1) == max_pos_sum(f, 0) + f.max_positions@[0]);
        assert(max_pos_sum(f, 2) == max_pos_sum(f, 1) + f.max_positions@[1]);
        assert(max_pos_sum(f, 3) == max_pos_sum(f, 2) + f.max_positions@[2]);
        assert(max_pos_sum(f, 4) == max_pos_sum(f, 3) + f.max_positions@[3]);
        assert(max_pos_sum(f, 5) == max_pos_sum(f, 4) + f.max_positions@[4]);
    }
    assert(max_pos_sum(f, WORD_LEN as int) + WORD_LEN * f.max_totals + (WORD_LEN * f.max_totals)
        * f.max_positions@[0] <= usize::MAX) by (nonlinear_arith)
        requires
            0 <= n <= 13000,
            max_pos_sum(f, WORD_LEN as int) <= WORD_LEN * n,
            0 <= f.max_totals <= WORD_LEN * n,
            0 <= f.max_positions@[0] <= n,
            WORD_LEN == 5,
            usize::MAX >= 0xffff_ffff,
    ;
}

/// The scores of every candidate, stated from the candidate set alone.
pub open spec fn session_scores(ws: Seq<Seq<char>>) -> Seq<int> {
    Seq::new(ws.len(), |i: int| crate::score::dict_score(ws, ws[i]))
}

/// Index `j` holds the first strictly-greatest positive score of `s`.
pub open spec fn is_first_max(s: Seq<int>, j: int) -> bool {
    &&& 0 <= j < s.len()
    &&& s[j] > 0
    &&& forall|l: int| 0 <= l < s.len() ==> s[l] <= s[j]
    &&& forall|l: int| 0 <= l < j ==> s[l] < s[j]
}

/// The index of the first strictly-greatest positive score.
pub open spec fn first_max_index(s: Seq<int>) -> int {
    choose|j: int| is_first_max(s, j)
}

/// At most one index holds the first strictly-greatest score.
pub proof fn lemma_first_max_unique(s: Seq<int>, j1: int, j2: int)
    requires
        is_first_max(s, j1),
        is_first_max(s, j2),
    ensures
        j1 == j2,
{
}

/// The guesses of one whole session, round by round: each round guesses the
/// best-scoring candidate; a hit ends the session, a miss tightens the
/// knowledge state and filters the candidates. The fuel bounds the rounds;
/// one more than the candidate count always suffices, since every round
/// removes the wrong guess it made.
pub open spec fn session_guesses(
    t: Seq<char>,
    cur: Seq<Seq<char>>,
    k: Knowledge,
    fuel: nat,
) -> Seq<Seq<char>>
    decreases fuel,
{
    if fuel == 0 || cur.len() == 0 {
        Seq::empty()
    } else {
        let g = cur[first_max_index(session_scores(cur))];
        if g == t {
            seq![g]
        } else {
            let k1 = derive_feedback(g, t, k);
            seq![g] + session_guesses(t, cur.filter(consistent_with(k1)), k1, (fuel - 1) as nat)
        }
    }
}

/// Runs one whole session: starting from the full dictionary, repeatedly
/// pick the best-scoring candidate, compare it against the target, tighten
/// the knowledge state and filter the candidates, until the target itself is
/// guessed. A target of the wrong length, or one missing from the
/// dictionary, is rejected before any guessing round. A finished session
/// made exactly the guesses that `session_guesses` derives from the
/// dictionary: at least one and at most one per dictionary word, pairwise
/// distinct dictionary words, the last of them the target.
pub fn solve(target: &String, words: &Vec<String>) -> (r: Result<SessionResult, SolveError>)
    requires
        forall|i: int| 0 <= i < words@.len() ==> word_wf(#[trigger] words.deep_view()[i]),
        words@.len() <= MAX_DICT_WORDS,
    ensures
        (r matches Err(e) && e == SolveError::InvalidTargetLength) <==> target@.len() != WORD_LEN,
        (r matches Err(e) && e == SolveError::TargetNotInDictionary) <==> (target@.len()
            == WORD_LEN && !words.deep_view().contains(target@)),
        (r matches Ok(s)) <==> (target@.len() == WORD_LEN && words.deep_view().contains(target@)),
        r matches Ok(s) ==> {
            &&& s.guesses@.len() == s.guess_count
            &&& 1 <= s.guess_count <= words@.len()
            &&& s.guesses.deep_view()[s.guess_count - 1] == target@
            &&& forall|i: int|
                0 <= i < s.guess_count ==> words.deep_view().contains(
                    #[trigger] s.guesses.deep_view()[i],
                )
            &&& forall|i: int, j: int|
                0 <= i < j < s.guess_count ==> s.guesses.deep_view()[i]
                    != s.guesses.deep_view()[j]
            &&& s.guesses.deep_view() == session_guesses(
                target@,
                words.deep_view(),
                initial_knowledge(),
                (words@.len() + 1) as nat,
            )
        },
{
    let ghost ws = words.deep_view();
    if target.as_str().unicode_len() != WORD_LEN {
        return Err(SolveError::InvalidTargetLength);
    }
    if !dict_contains(words, target) {
        return Err(SolveError::TargetNotInDictionary);
    }
    proof {
        let i = choose|i: int| 0 <= i < ws.len() && ws[i] == target@;
        assert(word_wf(target@));
    }
    let mut cur = clone_words(words);
    let mut info = KnownInfo::new();
    let mut guesses: Vec<String> = Vec::new();
    proof {
        assert forall|i: int| 0 <= i < cur@.len() implies consistent(
            #[trigger] cur.deep_view()[i],
            info@,
        ) by {
            lemma_initial_consistent(cur.deep_view()[i]);
        }
        assert(knowledge_wf(info@));
        assert forall|i: int| 0 <= i < cur@.len() implies ws.contains(
            #[trigger] cur.deep_view()[i],
        ) by {
            assert(ws[i] == cur.deep_view()[i]);
        }
        assert(guesses.deep_view() =~= Seq::<Seq<char>>::empty());
        assert(guesses.deep_view() + session_guesses(
            target@,
            cur.deep_view(),
            info@,
            (ws.len() + 1) as nat,
        ) =~= session_guesses(target@, cur.deep_view(), info@, (ws.len() + 1) as nat));
    }
    loop
        invariant
            ws == words.deep_view(),
            ws.len() == words@.len(),
            ws.len() <= MAX_DICT_WORDS,
            forall|i: int| 0 <= i < ws.len() ==> word_wf(#[trigger] ws[i]),
            word_wf(target@),
            info.wf(),
            knowledge_wf(info@),
            cur@.len() == cur.deep_view().len(),
            1 <= cur@.len(),
            cur.deep_view().contains(target@),
            forall|i: int| 0 <= i < cur@.len() ==> word_wf(#[trigger] cur.deep_view()[i]),
            forall|i: int| 0 <= i < cur@.len() ==> ws.contains(#[trigger] cur.deep_view()[i]),
            forall|i: int|
                0 <= i < cur@.len() ==> consistent(#[trigger] cur.deep_view()[i], info@),
            guesses@.len() == guesses.deep_view().len(),
            guesses@.len() + cur@.len() <= ws.len(),
            forall|i: int|
                0 <= i < guesses@.len() ==> ws.contains(#[trigger] guesses.deep_view()[i]),
            forall|i: int|
                0 <= i < guesses@.len() ==> !cur.deep_view().contains(
                    #[trigger] guesses.deep_view()[i],
                ),
            forall|i: int, j: int|
                0 <= i < j < guesses@.len() ==> guesses.deep_view()[i] != guesses.deep_view()[j],
            session_guesses(target@, ws, initial_knowledge(), (ws.len() + 1) as nat)
                == guesses.deep_view() + session_guesses(
                target@,
                cur.deep_view(),
                info@,
                (ws.len() + 1 - guesses@.len()) as nat,
            ),
        decreases cur@.len(),
    {
        let ghost cur_dv = cur.deep_view();
        let freqs = get_letter_freqs(&cur);
        proof {
            lemma_stats_fit(freqs, cur_dv);
        }
        let scores = get_scores(&cur, &freqs, &info);
        proof {
            lemma_member_score_positive(freqs, cur_dv, 0);
            assert(scores@[0] > 0);
        }
        let best_word = get_best_word(&cur, &scores);
        let ghost bi = choose|i: int| 0 <= i < cur_dv.len() && cur_dv[i] == best_word@;
        let ghost srow = session_scores(cur_dv);
        let ghost fuel = (ws.len() + 1 - guesses@.len()) as nat;
        proof {
            assert(cur_dv.contains(best_word@));
            assert(cur_dv[bi] == best_word@);
            assert(word_wf(best_word@));
            assert(consistent(best_word@, info@));
            assert(ws.contains(best_word@));
            assert forall|i: int| 0 <= i < cur_dv.len() implies #[trigger] srow[i]
                == scores@[i] by {
                crate::score::lemma_score_bridge(freqs, cur_dv, cur_dv[i]);
            }
            let j0 = choose|j: int|
                {
                    &&& 0 <= j < cur@.len()
                    &&& best_word@ == cur.deep_view()[j]
                    &&& scores@[j] > 0
                    &&& forall|l: int| 0 <= l < scores@.len() ==> scores@[l] <= scores@[j]
                    &&& forall|l: int| 0 <= l < j ==> scores@[l] < scores@[j]
                };
            assert(is_first_max(srow, j0));
            assert(is_first_max(srow, first_max_index(srow)));
            lemma_first_max_unique(srow, j0, first_max_index(srow));
            assert(best_word@ == cur_dv[first_max_index(session_scores(cur_dv))]);
            assert(fuel >= 2);
        }
        let ghost guesses_before = guesses.deep_view();
        guesses.push(best_word.clone());
        proof {
            assert(guesses.deep_view() =~= guesses_before.push(best_word@));
        }
        if best_word == *target {
            proof {
                assert(session_guesses(target@, cur_dv, info@, fuel) =~= seq![best_word@]);
                assert(guesses.deep_view() =~= guesses_before + seq![best_word@]);
                assert(guesses.deep_view() == session_guesses(
                    target@,
                    ws,
                    initial_knowledge(),
                    (ws.len() + 1) as nat,
                ));
            }
            let n = guesses.len();
            return Ok(SessionResult { guess_count: n, guesses });
        }
        let ghost k0 = info@;
        make_guess(&best_word, target, &mut info);
        proof {
            lemma_derive_wf(best_word@, target@, k0);
            let ti = choose|i: int| 0 <= i < cur_dv.len() && cur_dv[i] == target@;
            assert(consistent(target@, k0));
            lemma_derive_preserves_target(best_word@, target@, k0);
            lemma_derive_eliminates_guess(best_word@, target@, k0);
        }
        let new_cur = get_possible_words(&info, &cur);
        proof {
            let ghost pred = consistent_with(info@);
            assert(new_cur.deep_view() == cur_dv.filter(pred));
            // the target survives the filter
            let ti = choose|i: int| 0 <= i < cur_dv.len() && cur_dv[i] == target@;
            cur_dv.lemma_filter_contains(pred, ti);
            assert(new_cur.deep_view().contains(target@));
            // the guess does not, so the candidate set strictly shrinks
            assert(!pred(cur_dv[bi]));
            lemma_filter_strict(cur_dv, pred, bi);
            assert(new_cur.deep_view().len() < cur_dv.len());
            // what survives was a candidate before, and is consistent now
            assert forall|i: int| 0 <= i < new_cur.deep_view().len() implies ws.contains(
                #[trigger] new_cur.deep_view()[i],
            ) && word_wf(new_cur.deep_view()[i]) && consistent(new_cur.deep_view()[i], info@) by {
                assert(new_cur.deep_view().contains(new_cur.deep_view()[i]));
                lemma_filter_member(cur_dv, pred, new_cur.deep_view()[i]);
                cur_dv.lemma_filter_pred(pred, i);
                let x = choose|x: int|
                    0 <= x < cur_dv.len() && cur_dv[x] == new_cur.deep_view()[i];
                assert(ws.contains(cur_dv[x]));
            }
            // no earlier guess comes back
            assert forall|i: int| 0 <= i < guesses.deep_view().len() implies !new_cur
                .deep_view().contains(#[trigger] guesses.deep_view()[i]) by {
                if new_cur.deep_view().contains(guesses.deep_view()[i]) {
                    lemma_filter_member(cur_dv, pred, guesses.deep_view()[i]);
                    if i < guesses.deep_view().len() - 1 {
                        assert(guesses_before[i] == guesses.deep_view()[i]);
                    } else {
                        assert(guesses.deep_view()[i] == best_word@);
                        let x = choose|x: int|
                            0 <= x < new_cur.deep_view().len() && new_cur.deep_view()[x]
                                == best_word@;
                        cur_dv.lemma_filter_pred(pred, x);
                    }
                }
            }
        }
        proof {
            let rest = session_guesses(
                target@,
                cur_dv.filter(consistent_with(info@)),
                info@,
                (fuel - 1) as nat,
            );
            assert(session_guesses(target@, cur_dv, k0, fuel) == seq![best_word@] + rest);
            assert(guesses.deep_view() + rest =~= guesses_before + (seq![best_word@] + rest));
            assert(session_guesses(target@, ws, initial_knowledge(), (ws.len() + 1) as nat)
                == guesses.deep_view() + session_guesses(
                target@,
                new_cur.deep_view(),
                info@,
                (ws.len() + 1 - guesses@.len()) as nat,
            ));
        }
        cur = new_cur;
        if cur.len() == 0 {
            // Proved unreachable: the target is always among the candidates.
            proof {
                assert(cur.deep_view().contains(target@));
                let i = choose|i: int|
                    0 <= i < cur.deep_view().len() && cur.deep_view()[i] == target@;
                assert(false);
            }
            return Err(SolveError::CandidateSetExhausted);
        }
    }
}

/// How many entries of `s` equal `v`.
pub open spec fn count_eq(s: Seq<usize>, v: int) -> nat
    decreases s.len(),
{
    if s.len() == 0 {
        0
    } else {
        count_eq(s.drop_last(), v) + if s.last() == v {
            1nat
        } else {
            0nat
        }
    }
}

/// The sum of all entries of `s`.
pub open spec fn seq_sum(s: Seq<usize>) -> int
    decreases s.len(),
{
    if s.len() == 0 {
        0
    } else {
        seq_sum(s.drop_last()) + s.last()
    }
}

/// Solves every dictionary word as its own target and reports the guess
/// count of each session. With a well-formed dictionary every target passes
/// the length and membership checks, so every session finishes; each takes
/// at least one and at most one guess per dictionary word.
pub fn batch_solve(words: &Vec<String>) -> (counts: Vec<usize>)
    requires
        forall|i: int| 0 <= i < words@.len() ==> word_wf(#[trigger] words.deep_view()[i]),
        words@.len() <= MAX_DICT_WORDS,
    ensures
        counts@.len() == words@.len(),
        forall|i: int| 0 <= i < counts@.len() ==> 1 <= #[trigger] counts@[i] <= words@.len(),
        forall|i: int|
            0 <= i < counts@.len() ==> #[trigger] counts@[i] == session_guesses(
                words.deep_view()[i],
                words.deep_view(),
                initial_knowledge(),
                (words@.len() + 1) as nat,
            ).len(),
{
    let ghost ws = words.deep_view();
    let mut counts: Vec<usize> = Vec::new();
    let mut i: usize = 0;
    while i < words.len()
        invariant
            i <= words@.len(),
            ws == words.deep_view(),
            ws.len() == words@.len(),
            ws.len() <= MAX_DICT_WORDS,
            forall|j: int| 0 <= j < ws.len() ==> word_wf(#[trigger] ws[j]),
            counts@.len() == i,
            forall|j: int| 0 <= j < i ==> 1 <= #[trigger] counts@[j] <= words@.len(),
            forall|j: int|
                0 <= j < i ==> #[trigger] counts@[j] == session_guesses(
                    ws[j],
                    ws,
                    initial_knowledge(),
                    (ws.len() + 1) as nat,
                ).len(),
        decreases words@.len() - i,
    {
        let target = &words[i];
        proof {
            assert(ws[i as int] == target@);
            assert(ws.contains(target@));
        }
        match solve(target, words) {
            Ok(session) => {
                counts.push(session.guess_count);
            },
            Err(_) => {
                // Proved unreachable: every dictionary word is a five-letter
                // member of its own dictionary.
                proof {
                    assert(false);
                }
                counts.push(0);
            },
        }
        i = i + 1;
    }
    counts
}

/// The sum of all guess counts, from which a caller derives the mean.
pub fn total_guesses(counts: &Vec<usize>) -> (total: usize)
    requires
        counts@.len() <= MAX_DICT_WORDS,
        forall|i: int| 0 <= i < counts@.len() ==> #[trigger] counts@[i] <= MAX_DICT_WORDS,
    ensures
        total == seq_sum(counts@),
{
    let mut total: usize = 0;
    let mut i: usize = 0;
    while i < counts.len()
        invariant
            i <= counts@.len(),
            counts@.len() <= MAX_DICT_WORDS,
            forall|j: int| 0 <= j < counts@.len() ==> #[trigger] counts@[j] <= MAX_DICT_WORDS,
            total == seq_sum(counts@.subrange(0, i as int)),
            total <= i * MAX_DICT_WORDS,
        decreases counts@.len() - i,
    {
        proof {
            let t = counts@.subrange(0, i + 1);
            assert(t.drop_last() =~= counts@.subrange(0, i as int));
            assert(t.last() == counts@[i as int]);
            assert(total + counts@[i as int] <= (i + 1) * MAX_DICT_WORDS && (i + 1)
                * MAX_DICT_WORDS <= MAX_DICT_WORDS * MAX_DICT_WORDS && MAX_DICT_WORDS
                * MAX_DICT_WORDS < usize::MAX) by (nonlinear_arith)
                requires
                    total <= i * MAX_DICT_WORDS,
                    counts@[i as int] <= MAX_DICT_WORDS,
                    0 <= i,
                    i + 1 <= MAX_DICT_WORDS,
                    MAX_DICT_WORDS == 13000,
                    usize::MAX >= 0xffff_ffff,
            ;
        }
        total = total + counts[i];
        i = i + 1;
    }
    proof {
        assert(counts@.subrange(0, counts@.len() as int) =~= counts@);
    }
    total
}

/// Buckets the guess counts: entry `b` of the result says how many sessions
/// took exactly `b` guesses. Every count must fall below the bucket number.
pub fn histogram(counts: &Vec<usize>, bins: usize) -> (hist: Vec<usize>)
    requires
        forall|i: int| 0 <= i < counts@.len() ==> #[trigger] counts@[i] < bins,
    ensures
        hist@.len() == bins,
        forall|b: int| 0 <= b < bins ==> #[trigger] hist@[b] == count_eq(counts@, b),
{
    let mut hist: Vec<usize> = Vec::new();
    let mut b: usize = 0;
    while b < bins
        invariant
            b <= bins,
            hist@.len() == b,
            forall|j: int| 0 <= j < b ==> #[trigger] hist@[j] == 0,
        decreases bins - b,
    {
        hist.push(0);
        b = b + 1;
    }
    proof {
        assert forall|bb: int| 0 <= bb < bins implies #[trigger] hist@[bb] == count_eq(
            counts@.subrange(0, 0),
            bb,
        ) by {
            assert(counts@.subrange(0, 0) =~= Seq::<usize>::empty());
        }
    }
    let mut i: usize = 0;
    while i < counts.len()
        invariant
            i <= counts@.len(),
            forall|j: int| 0 <= j < counts@.len() ==> #[trigger] counts@[j] < bins,
            hist@.len() == bins,
            forall|bb: int|
                0 <= bb < bins ==> #[trigger] hist@[bb] == count_eq(
                    counts@.subrange(0, i as int),
                    bb,
                ),
            forall|bb: int| 0 <= bb < bins ==> #[trigger] hist@[bb] <= i,
        decreases counts@.len() - i,
    {
        let c = counts[i];
        let ghost before = hist@;
        hist[c] = hist[c] + 1;
        proof {
            assert forall|bb: int| 0 <= bb < bins implies #[trigger] hist@[bb] == count_eq(
                counts@.subrange(0, i + 1),
                bb,
            ) by {
                let t = counts@.subrange(0, i + 1);
                assert(t.drop_last() =~= counts@.subrange(0, i as int));
                assert(t.last() == counts@[i as int]);
                if bb != c {
                    assert(hist@[bb] == before[bb]);
                }
            }
        }
        i = i + 1;
    }
    proof {
        assert(counts@.subrange(0, counts@.len() as int) =~= counts@);
    }
    hist
}

} // verus!
