//! Guess ranking: a heuristic score for every candidate from the letter
//! statistics, and the stable selection of the best-scoring word.

use vstd::prelude::*;
use vstd::string::StrSliceExecFns;
use crate::words::WORD_LEN;
use crate::words::ALPHABET;
use crate::words::is_lower;
use crate::words::word_wf;
use crate::freq::LetterFreq;
use crate::freq::lemma_row_max_dominates;
use crate::freq::pos_count_of;
use crate::knowledge::KnownInfo;

verus! {

/// The positional part of a word's score over its first `n` positions: the
/// sum of the positional counts of its letters.
pub open spec fn score_pos_upto(f: LetterFreq, w: Seq<char>, n: int) -> nat
    decreases n,
{
    if n <= 0 {
        0
    } else {
        score_pos_upto(f, w, n - 1) + f.spec_pos_count(n - 1, w[n - 1])
    }
}

/// The total-count part of a word's score over its first `n` positions: the
/// sum of the total counts of its letters, repeated letters counted again.
pub open spec fn score_total_upto(f: LetterFreq, w: Seq<char>, n: int) -> nat
    decreases n,
{
    if n <= 0 {
        0
    } else {
        score_total_upto(f, w, n - 1) + f.spec_total_count(w[n - 1])
    }
}

/// The sum of the positional maxima over the first `n` positions.
pub open spec fn max_pos_sum(f: LetterFreq, n: int) -> int
    decreases n,
{
    if n <= 0 {
        0
    } else {
        max_pos_sum(f, n - 1) + f.max_positions@[n - 1]
    }
}

/// A word's score: its positional score, plus its total-count score scaled
/// by the first positional maximum, normalized by the maximal total count
/// and damped by three. When the maximal total count is zero the
/// total-count part is left out instead of dividing by zero.
pub open spec fn score_of(f: LetterFreq, w: Seq<char>) -> int {
    score_pos_upto(f, w, WORD_LEN as int) + if f.max_totals > 0 {
        (score_total_upto(f, w, WORD_LEN as int) * f.max_positions@[0]) as int
            / (f.max_totals as int) / 3
    } else {
        0
    }
}

/// The score arithmetic stays within `usize` for every well-formed word.
pub open spec fn scores_fit(f: LetterFreq) -> bool {
    max_pos_sum(f, WORD_LEN as int) + WORD_LEN * f.max_totals + (WORD_LEN * f.max_totals)
        * f.max_positions@[0] <= usize::MAX
}

/// Scores every word of the list against the statistics `freqs`. The
/// knowledge state takes no part in this scoring policy; it is accepted so
/// that other policies that discount known letters share the signature.
pub fn get_scores(words: &Vec<String>, freqs: &LetterFreq, info: &KnownInfo) -> (scores: Vec<
    usize,
>)
    requires
        freqs.wf(),
        freqs.maxs_valid(),
        scores_fit(*freqs),
        forall|i: int| 0 <= i < words@.len() ==> word_wf(#[trigger] words.deep_view()[i]),
    ensures
        scores@.len() == words@.len(),
        forall|i: int|
            0 <= i < words@.len() ==> #[trigger] scores@[i] == score_of(
                *freqs,
                words.deep_view()[i],
            ),
{
    let ghost ws = words.deep_view();
    let mut scores: Vec<usize> = Vec::new();
    let mut k: usize = 0;
    while k < words.len()
        invariant
            k <= words@.len(),
            ws == words.deep_view(),
            ws.len() == words@.len(),
            freqs.wf(),
            freqs.maxs_valid(),
            scores_fit(*freqs),
            forall|i: int| 0 <= i < ws.len() ==> word_wf(#[trigger] ws[i]),
            scores@.len() == k,
            forall|i: int| 0 <= i < k ==> #[trigger] scores@[i] == score_of(*freqs, ws[i]),
        decreases words@.len() - k,
    {
        let word = &words[k];
        proof {
            assert(ws[k as int] == word@);
            lemma_max_pos_sum_mono(*freqs, WORD_LEN as int);
        }
        let mut score_pos: usize = 0;
        let mut pos: usize = 0;
        while pos < WORD_LEN
            invariant
                pos <= WORD_LEN,
                freqs.wf(),
                freqs.maxs_valid(),
                scores_fit(*freqs),
                word_wf(word@),
                score_pos == score_pos_upto(*freqs, word@, pos as int),
                score_pos <= max_pos_sum(*freqs, pos as int),
            decreases WORD_LEN - pos,
        {
            let c = word.as_str().get_char(pos);
            proof {
                lemma_row_max_dominates(freqs.positions@[pos as int]@, ALPHABET as int);
                lemma_max_pos_sum_mono(*freqs, WORD_LEN as int);
                assert(is_lower(c));
                assert(freqs.spec_pos_count(pos as int, c) <= freqs.max_positions@[pos as int]);
                assert((WORD_LEN * freqs.max_totals) * freqs.max_positions@[0] >= 0)
                    by (nonlinear_arith)
                    requires
                        freqs.max_totals >= 0,
                        freqs.max_positions@[0] >= 0,
                ;
                assert(max_pos_sum(*freqs, pos + 1) == max_pos_sum(*freqs, pos as int)
                    + freqs.max_positions@[pos as int]);
                assert(max_pos_sum(*freqs, pos + 1) <= max_pos_sum(*freqs, WORD_LEN as int));
            }
            score_pos = score_pos + freqs.get_pos_count(pos, c);
            pos = pos + 1;
        }
        let mut score_total: usize = 0;
        let mut pos2: usize = 0;
        while pos2 < WORD_LEN
            invariant
                pos2 <= WORD_LEN,
                freqs.wf(),
                freqs.maxs_valid(),
                scores_fit(*freqs),
                word_wf(word@),
                score_total == score_total_upto(*freqs, word@, pos2 as int),
                score_total <= WORD_LEN * freqs.max_totals,
                score_total <= pos2 * freqs.max_totals,
            decreases WORD_LEN - pos2,
        {
            let c = word.as_str().get_char(pos2);
            proof {
                lemma_row_max_dominates(freqs.totals@, ALPHABET as int);
                assert(is_lower(c));
                assert(freqs.spec_total_count(c) <= freqs.max_totals);
                lemma_max_pos_sum_mono(*freqs, WORD_LEN as int);
                assert((WORD_LEN * freqs.max_totals) * freqs.max_positions@[0] >= 0)
                    by (nonlinear_arith)
                    requires
                        freqs.max_totals >= 0,
                        freqs.max_positions@[0] >= 0,
                ;
                assert(score_total + freqs.max_totals <= (pos2 + 1) * freqs.max_totals
                    && (pos2 + 1) * freqs.max_totals <= WORD_LEN * freqs.max_totals)
                    by (nonlinear_arith)
                    requires
                        score_total <= pos2 * freqs.max_totals,
                        pos2 + 1 <= WORD_LEN,
                        freqs.max_totals >= 0,
                ;
            }
            score_total = score_total + freqs.get_total_count(c);
            pos2 = pos2 + 1;
        }
        let total_max = freqs.get_total_max();
        let score: usize = if total_max > 0 {
            proof {
                assert(score_total * freqs.max_positions@[0] <= (WORD_LEN * freqs.max_totals)
                    * freqs.max_positions@[0]) by (nonlinear_arith)
                    requires
                        score_total <= WORD_LEN * freqs.max_totals,
                        freqs.max_positions@[0] >= 0,
                ;
                assert(score_pos <= max_pos_sum(*freqs, WORD_LEN as int));
            }
            let weighted = score_total * freqs.get_pos_max(0);
            let normalized = weighted / total_max / 3;
            proof {
                assert(normalized <= weighted) by (nonlinear_arith)
                    requires
                        normalized == weighted as int / (total_max as int) / 3,
                        total_max > 0,
                        weighted >= 0,
                ;
            }
            score_pos + normalized
        } else {
            score_pos
        };
        scores.push(score);
        k = k + 1;
    }
    scores
}

/// The partial sums of the positional maxima grow with the prefix length.
pub proof fn lemma_max_pos_sum_mono(f: LetterFreq, n: int)
    requires
        f.maxs_valid(),
        f.wf(),
    ensures
        forall|m: int| 0 <= m <= n ==> #[trigger] max_pos_sum(f, m) <= max_pos_sum(f, n),
        max_pos_sum(f, 0) == 0,
        forall|m: int| 0 <= m <= n ==> 0 <= #[trigger] max_pos_sum(f, m),
    decreases n,
{
    if n > 0 {
        lemma_max_pos_sum_mono(f, n - 1);
        if n - 1 < WORD_LEN {
            crate::freq::lemma_row_max_nonneg(f.positions@[n - 1]@, ALPHABET as int);
        }
    }
}

/// The positional score of a word includes its first letter's count.
pub proof fn lemma_score_pos_lower(f: LetterFreq, w: Seq<char>, n: int)
    requires
        n >= 1,
    ensures
        score_pos_upto(f, w, n) >= f.spec_pos_count(0, w[0]),
    decreases n,
{
    if n > 1 {
        lemma_score_pos_lower(f, w, n - 1);
    }
}

/// Every word counted in the statistics scores at least one: its own
/// letters contribute to the positional counts it is scored by.
pub proof fn lemma_member_score_positive(f: LetterFreq, ws: Seq<Seq<char>>, i: int)
    requires
        f.wf(),
        f.counts_of(ws),
        0 <= i < ws.len(),
        word_wf(ws[i]),
    ensures
        score_of(f, ws[i]) >= 1,
{
    let w = ws[i];
    crate::freq::lemma_pos_count_member(ws, 0, i);
    assert(is_lower(w[0]));
    assert(f.spec_pos_count(0, w[0]) == pos_count_of(ws, 0, w[0]));
    lemma_score_pos_lower(f, w, WORD_LEN as int);
    if f.max_totals > 0 {
        let q = (score_total_upto(f, w, WORD_LEN as int) * f.max_positions@[0]) as int;
        assert(q / (f.max_totals as int) / 3 >= 0) by (nonlinear_arith)
            requires
                q >= 0,
                f.max_totals > 0,
        ;
    }
}

/// The positional counts of a word set at position `p`, as one row over
/// the alphabet.
pub open spec fn stat_pos_row(ws: Seq<Seq<char>>, p: int) -> Seq<usize> {
    Seq::new(ALPHABET as nat, |j: int| pos_count_of(ws, p, crate::words::spec_letter_of(j)) as usize)
}

/// The total counts of a word set, as one row over the alphabet.
pub open spec fn stat_totals_row(ws: Seq<Seq<char>>) -> Seq<usize> {
    Seq::new(
        ALPHABET as nat,
        |j: int| crate::freq::total_count_of(ws, crate::words::spec_letter_of(j)) as usize,
    )
}

/// The positional score of `w` over its first `n` positions, stated from
/// the word set alone.
pub open spec fn dict_score_pos(ws: Seq<Seq<char>>, w: Seq<char>, n: int) -> nat
    decreases n,
{
    if n <= 0 {
        0
    } else {
        dict_score_pos(ws, w, n - 1) + pos_count_of(ws, n - 1, w[n - 1])
    }
}

/// The total-count score of `w` over its first `n` positions, stated from
/// the word set alone.
pub open spec fn dict_score_total(ws: Seq<Seq<char>>, w: Seq<char>, n: int) -> nat
    decreases n,
{
    if n <= 0 {
        0
    } else {
        dict_score_total(ws, w, n - 1) + crate::freq::total_count_of(ws, w[n - 1])
    }
}

/// The score of `w` against the statistics of the word set `ws`, stated
/// from the word set alone.
pub open spec fn dict_score(ws: Seq<Seq<char>>, w: Seq<char>) -> int {
    let pos_max0 = crate::freq::row_max(stat_pos_row(ws, 0), ALPHABET as int);
    let total_max = crate::freq::row_max(stat_totals_row(ws), ALPHABET as int);
    dict_score_pos(ws, w, WORD_LEN as int) + if total_max > 0 {
        (dict_score_total(ws, w, WORD_LEN as int) * pos_max0) / total_max / 3
    } else {
        0
    }
}

/// Statistics computed from a word set score every well-formed word exactly
/// as the word set itself does.
pub proof fn lemma_score_bridge(f: LetterFreq, ws: Seq<Seq<char>>, w: Seq<char>)
    requires
        f.wf(),
        f.counts_of(ws),
        f.maxs_valid(),
        word_wf(w),
        forall|i: int| 0 <= i < ws.len() ==> word_wf(#[trigger] ws[i]),
        WORD_LEN * ws.len() <= usize::MAX,
    ensures
        score_of(f, w) == dict_score(ws, w),
{
    crate::words::lemma_count_in_le_len(w, w[0]);
    assert forall|p: int| 0 <= p < WORD_LEN implies f.positions@[p]@ =~= stat_pos_row(ws, p) by {
        assert forall|j: int| 0 <= j < ALPHABET implies f.positions@[p]@[j] == stat_pos_row(
            ws,
            p,
        )[j] by {
            crate::words::lemma_letter_index_roundtrip(j);
            let c = crate::words::spec_letter_of(j);
            assert(f.spec_pos_count(p, c) == pos_count_of(ws, p, c));
            crate::freq::lemma_counts_bounded(ws);
        }
    }
    assert(f.totals@ =~= stat_totals_row(ws)) by {
        assert forall|j: int| 0 <= j < ALPHABET implies f.totals@[j] == stat_totals_row(ws)[j] by {
            crate::words::lemma_letter_index_roundtrip(j);
            let c = crate::words::spec_letter_of(j);
            assert(f.spec_total_count(c) == crate::freq::total_count_of(ws, c));
            crate::freq::lemma_counts_bounded(ws);
        }
    }
    assert(f.max_positions@[0] == crate::freq::row_max(stat_pos_row(ws, 0), ALPHABET as int));
    assert(f.max_totals == crate::freq::row_max(stat_totals_row(ws), ALPHABET as int));
    lemma_score_parts_bridge(f, ws, w, WORD_LEN as int);
}

/// The two score parts agree between statistics and word set, prefix by
/// prefix.
pub proof fn lemma_score_parts_bridge(f: LetterFreq, ws: Seq<Seq<char>>, w: Seq<char>, n: int)
    requires
        f.wf(),
        f.counts_of(ws),
        word_wf(w),
        n <= WORD_LEN,
    ensures
        score_pos_upto(f, w, n) == dict_score_pos(ws, w, n),
        score_total_upto(f, w, n) == dict_score_total(ws, w, n),
    decreases n,
{
    if n > 0 {
        lemma_score_parts_bridge(f, ws, w, n - 1);
        assert(is_lower(w[n - 1]));
        assert(f.spec_pos_count(n - 1, w[n - 1]) == pos_count_of(ws, n - 1, w[n - 1]));
        assert(f.spec_total_count(w[n - 1]) == crate::freq::total_count_of(ws, w[n - 1]));
    }
}

/// Picks the word with the strictly greatest score; ties keep the earliest
/// word. When every score is zero (in particular, when the list is empty)
/// the result is the empty string.
pub fn get_best_word(words: &Vec<String>, scores: &Vec<usize>) -> (r: String)
    requires
        scores@.len() == words@.len(),
    ensures
        (exists|j: int| 0 <= j < scores@.len() && scores@[j] > 0) ==> exists|j: int|
            {
                &&& 0 <= j < words@.len()
                &&& r@ == #[trigger] words.deep_view()[j]
                &&& scores@[j] > 0
                &&& forall|l: int| 0 <= l < scores@.len() ==> scores@[l] <= scores@[j]
                &&& forall|l: int| 0 <= l < j ==> scores@[l] < scores@[j]
            },
        (exists|j: int| 0 <= j < scores@.len() && scores@[j] > 0) ==> words.deep_view().contains(
            r@,
        ),
        (forall|j: int| 0 <= j < scores@.len() ==> scores@[j] == 0) ==> r@ == Seq::<char>::empty(),
{
    let mut best: usize = 0;
    let mut best_score: usize = 0;
    let mut k: usize = 0;
    while k < words.len()
        invariant
            k <= words@.len(),
            scores@.len() == words@.len(),
            best_score == 0 ==> forall|l: int| 0 <= l < k ==> scores@[l] == 0,
            best_score > 0 ==> {
                &&& 0 <= best < k
                &&& scores@[best as int] == best_score
                &&& forall|l: int| 0 <= l < k ==> scores@[l] <= best_score
                &&& forall|l: int| 0 <= l < best ==> scores@[l] < best_score
            },
        decreases words@.len() - k,
    {
        if scores[k] > best_score {
            best = k;
            best_score = scores[k];
        }
        k = k + 1;
    }
    if best_score > 0 {
        let r = words[best].clone();
        proof {
            assert(r@ == words.deep_view()[best as int]);
        }
        r
    } else {
        String::new()
    }
}

} // verus!
