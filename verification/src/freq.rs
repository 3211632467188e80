//! Letter-occurrence statistics over a set of candidate words: how often
//! each letter occurs at each position, and in total, across the set.

use vstd::prelude::*;
use vstd::string::StrSliceExecFns;
use crate::words::ALPHABET;
use crate::words::WORD_LEN;
use crate::words::count_in;
use crate::words::is_lower;
use crate::words::letter_index;
use crate::words::spec_letter_index;
use crate::words::word_wf;
use crate::words::lemma_count_in_le_len;

verus! {

/// Number of words in `ws` whose letter at position `p` is `c`.
pub open spec fn pos_count_of(ws: Seq<Seq<char>>, p: int, c: char) -> nat
    decreases ws.len(),
{
    if ws.len() == 0 {
        0
    } else {
        pos_count_of(ws.drop_last(), p, c) + if 0 <= p < ws.last().len() && ws.last()[p] == c {
            1nat
        } else {
            0nat
        }
    }
}

/// Number of occurrences of the letter `c` over all words and positions of `ws`.
pub open spec fn total_count_of(ws: Seq<Seq<char>>, c: char) -> nat
    decreases ws.len(),
{
    if ws.len() == 0 {
        0
    } else {
        total_count_of(ws.drop_last(), c) + count_in(ws.last(), c)
    }
}

/// The largest entry among the first `n` of a count row (zero if `n` is zero).
pub open spec fn row_max(s: Seq<usize>, n: int) -> int
    decreases n,
{
    if n <= 0 {
        0
    } else if s[n - 1] > row_max(s, n - 1) {
        s[n - 1] as int
    } else {
        row_max(s, n - 1)
    }
}

/// Every listed entry is bounded by the row maximum.
pub proof fn lemma_row_max_dominates(s: Seq<usize>, n: int)
    ensures
        forall|j: int| 0 <= j < n ==> #[trigger] s[j] <= row_max(s, n),
    decreases n,
{
    if n > 0 {
        lemma_row_max_dominates(s, n - 1);
    }
}

/// The row maximum is never negative.
pub proof fn lemma_row_max_nonneg(s: Seq<usize>, n: int)
    ensures
        row_max(s, n) >= 0,
    decreases n,
{
    if n > 0 {
        lemma_row_max_nonneg(s, n - 1);
    }
}

/// A bound on all listed entries bounds the row maximum.
pub proof fn lemma_row_max_le(s: Seq<usize>, n: int, b: int)
    requires
        0 <= b,
        forall|j: int| 0 <= j < n ==> #[trigger] s[j] <= b,
    ensures
        row_max(s, n) <= b,
    decreases n,
{
    if n > 0 {
        lemma_row_max_le(s, n - 1, b);
    }
}

/// Per-position and total letter-occurrence counts for a word set, with the
/// maxima of each counting kept alongside for score normalization.
#[derive(Clone)]
pub struct LetterFreq {
    /// For each of the five positions, one count per letter of the alphabet.
    pub positions: Vec<Vec<usize>>,
    /// For each letter of the alphabet, its occurrence count over all positions.
    pub totals: Vec<usize>,
    /// For each position, the largest count in `positions` at that position.
    pub max_positions: Vec<usize>,
    /// The largest count in `totals`.
    pub max_totals: usize,
}

impl LetterFreq {
    /// Shape of the tables: five rows of 26 positional counts, 26 totals,
    /// five positional maxima.
    pub open spec fn wf(self) -> bool {
        &&& self.positions@.len() == WORD_LEN
        &&& forall|p: int|
            0 <= p < WORD_LEN ==> (#[trigger] self.positions@[p])@.len() == ALPHABET
        &&& self.totals@.len() == ALPHABET
        &&& self.max_positions@.len() == WORD_LEN
    }

    /// The positional count for letter `c` at position `p`.
    pub open spec fn spec_pos_count(self, p: int, c: char) -> nat {
        self.positions@[p]@[spec_letter_index(c)] as nat
    }

    /// The total count for letter `c`.
    pub open spec fn spec_total_count(self, c: char) -> nat {
        self.totals@[spec_letter_index(c)] as nat
    }

    /// The counts of `self` are exactly those of the word set `ws`.
    pub open spec fn counts_of(self, ws: Seq<Seq<char>>) -> bool {
        &&& forall|p: int, c: char|
            0 <= p < WORD_LEN && is_lower(c) ==> self.spec_pos_count(p, c) == pos_count_of(
                ws,
                p,
                c,
            )
        &&& forall|c: char| is_lower(c) ==> self.spec_total_count(c) == total_count_of(ws, c)
    }

    /// The maxima fields hold exactly the row maxima of their tables.
    pub open spec fn maxs_valid(self) -> bool {
        &&& forall|p: int|
            0 <= p < WORD_LEN ==> #[trigger] self.max_positions@[p] == row_max(
                self.positions@[p]@,
                ALPHABET as int,
            )
        &&& self.max_totals == row_max(self.totals@, ALPHABET as int)
    }

    /// An empty statistic: every count and every maximum is zero.
    pub fn new() -> (f: LetterFreq)
        ensures
            f.wf(),
            f.maxs_valid(),
            forall|p: int, j: int|
                0 <= p < WORD_LEN && 0 <= j < ALPHABET ==> #[trigger] f.positions@[p]@[j] == 0,
            forall|j: int| 0 <= j < ALPHABET ==> #[trigger] f.totals@[j] == 0,
            forall|p: int| 0 <= p < WORD_LEN ==> #[trigger] f.max_positions@[p] == 0,
            f.max_totals == 0,
    {
        let mut positions: Vec<Vec<usize>> = Vec::new();
        let mut p: usize = 0;
        while p < WORD_LEN
            invariant
                p <= WORD_LEN,
                positions@.len() == p,
                forall|q: int, j: int|
                    0 <= q < p && 0 <= j < ALPHABET ==> #[trigger] positions@[q]@[j] == 0,
                forall|q: int| 0 <= q < p ==> (#[trigger] positions@[q])@.len() == ALPHABET,
            decreases WORD_LEN - p,
        {
            positions.push(zero_row());
            p = p + 1;
        }
        let totals = zero_row();
        let mut max_positions: Vec<usize> = Vec::new();
        let mut q: usize = 0;
        while q < WORD_LEN
            invariant
                q <= WORD_LEN,
                max_positions@.len() == q,
                forall|r: int| 0 <= r < q ==> #[trigger] max_positions@[r] == 0,
            decreases WORD_LEN - q,
        {
            max_positions.push(0);
            q = q + 1;
        }
        let f = LetterFreq { positions, totals, max_positions, max_totals: 0 };
        proof {
            assert forall|p: int|
                0 <= p < WORD_LEN implies #[trigger] f.max_positions@[p] == row_max(
                f.positions@[p]@,
                ALPHABET as int,
            ) by {
                lemma_row_max_le(f.positions@[p]@, ALPHABET as int, 0);
                lemma_row_max_nonneg(f.positions@[p]@, ALPHABET as int);
            }
            lemma_row_max_le(f.totals@, ALPHABET as int, 0);
            lemma_row_max_nonneg(f.totals@, ALPHABET as int);
        }
        f
    }

    /// Records one more occurrence of `letter` at position `pos`: the
    /// positional count and the total count of that letter each grow by one,
    /// every other count and the maxima stay as they were.
    pub fn inc(&mut self, pos: usize, letter: char)
        requires
            old(self).wf(),
            pos < WORD_LEN,
            is_lower(letter),
            old(self).positions@[pos as int]@[spec_letter_index(letter)] < usize::MAX,
            old(self).totals@[spec_letter_index(letter)] < usize::MAX,
        ensures
            final(self).wf(),
            final(self).spec_pos_count(pos as int, letter) == old(self).spec_pos_count(
                pos as int,
                letter,
            ) + 1,
            final(self).spec_total_count(letter) == old(self).spec_total_count(letter) + 1,
            forall|p: int, j: int|
                0 <= p < WORD_LEN && 0 <= j < ALPHABET && !(p == pos && j == spec_letter_index(
                    letter,
                )) ==> #[trigger] final(self).positions@[p]@[j] == old(self).positions@[p]@[j],
            forall|j: int|
                0 <= j < ALPHABET && j != spec_letter_index(letter)
                    ==> #[trigger] final(self).totals@[j] == old(self).totals@[j],
            final(self).max_positions == old(self).max_positions,
            final(self).max_totals == old(self).max_totals,
    {
        let idx = letter_index(letter);
        let row = &mut self.positions[pos];
        row[idx] = row[idx] + 1;
        self.totals[idx] = self.totals[idx] + 1;
    }

    /// Recomputes the two maxima fields from the current tables.
    pub fn calc_maxs(&mut self)
        requires
            old(self).wf(),
        ensures
            final(self).wf(),
            final(self).positions == old(self).positions,
            final(self).totals == old(self).totals,
            final(self).maxs_valid(),
    {
        let mut maxp: Vec<usize> = Vec::new();
        let mut p: usize = 0;
        while p < WORD_LEN
            invariant
                p <= WORD_LEN,
                self == old(self),
                self.wf(),
                maxp@.len() == p,
                forall|q: int|
                    0 <= q < p ==> #[trigger] maxp@[q] == row_max(
                        self.positions@[q]@,
                        ALPHABET as int,
                    ),
            decreases WORD_LEN - p,
        {
            let row = &self.positions[p];
            let mut m = row[0];
            proof {
                assert(m == row_max(row@, 1)) by {
                    reveal_with_fuel(row_max, 2);
                }
            }
            let mut j: usize = 1;
            while j < ALPHABET
                invariant
                    1 <= j <= ALPHABET,
                    p < WORD_LEN,
                    self.wf(),
                    row@ == self.positions@[p as int]@,
                    m == row_max(row@, j as int),
                decreases ALPHABET - j,
            {
                if row[j] > m {
                    m = row[j];
                }
                j = j + 1;
            }
            maxp.push(m);
            p = p + 1;
        }
        self.max_positions = maxp;
        let mut mt = self.totals[0];
        proof {
            assert(mt == row_max(self.totals@, 1)) by {
                reveal_with_fuel(row_max, 2);
            }
        }
        let mut j: usize = 1;
        while j < ALPHABET
            invariant
                1 <= j <= ALPHABET,
                self.wf(),
                self.positions == old(self).positions,
                self.totals == old(self).totals,
                self.max_positions@.len() == WORD_LEN,
                mt == row_max(self.totals@, j as int),
                forall|q: int|
                    0 <= q < WORD_LEN ==> #[trigger] self.max_positions@[q] == row_max(
                        self.positions@[q]@,
                        ALPHABET as int,
                    ),
            decreases ALPHABET - j,
        {
            if self.totals[j] > mt {
                mt = self.totals[j];
            }
            j = j + 1;
        }
        self.max_totals = mt;
    }

    /// The positional count for `letter` at position `pos`.
    pub fn get_pos_count(&self, pos: usize, letter: char) -> (n: usize)
        requires
            self.wf(),
            pos < WORD_LEN,
            is_lower(letter),
        ensures
            n == self.spec_pos_count(pos as int, letter),
    {
        self.positions[pos][letter_index(letter)]
    }

    /// The total count for `letter`.
    pub fn get_total_count(&self, letter: char) -> (n: usize)
        requires
            self.wf(),
            is_lower(letter),
        ensures
            n == self.spec_total_count(letter),
    {
        self.totals[letter_index(letter)]
    }

    /// The positional maximum for position `pos`.
    pub fn get_pos_max(&self, pos: usize) -> (n: usize)
        requires
            self.wf(),
            pos < WORD_LEN,
        ensures
            n == self.max_positions@[pos as int],
    {
        self.max_positions[pos]
    }

    /// The maximum of the total counts.
    pub fn get_total_max(&self) -> (n: usize)
        ensures
            n == self.max_totals,
    {
        self.max_totals
    }
}

/// A row of 26 zero counts.
fn zero_row() -> (row: Vec<usize>)
    ensures
        row@.len() == ALPHABET,
        forall|j: int| 0 <= j < ALPHABET ==> #[trigger] row@[j] == 0,
{
    let mut row: Vec<usize> = Vec::new();
    let mut j: usize = 0;
    while j < ALPHABET
        invariant
            j <= ALPHABET,
            row@.len() == j,
            forall|k: int| 0 <= k < j ==> #[trigger] row@[k] == 0,
        decreases ALPHABET - j,
    {
        row.push(0);
        j = j + 1;
    }
    row
}

/// Computes the letter statistics of a word set, maxima included.
pub fn get_letter_freqs(words: &Vec<String>) -> (f: LetterFreq)
    requires
        forall|i: int| 0 <= i < words@.len() ==> word_wf(#[trigger] words.deep_view()[i]),
        words@.len() * WORD_LEN <= usize::MAX,
    ensures
        f.wf(),
        f.counts_of(words.deep_view()),
        f.maxs_valid(),
{
    let ghost ws = words.deep_view();
    let mut ret = LetterFreq::new();
    proof {
        assert(ws.subrange(0, 0) =~= Seq::<Seq<char>>::empty());
    }
    let mut k: usize = 0;
    while k < words.len()
        invariant
            k <= words@.len(),
            ws == words.deep_view(),
            ws.len() == words@.len(),
            forall|i: int| 0 <= i < ws.len() ==> word_wf(#[trigger] ws[i]),
            words@.len() * WORD_LEN <= usize::MAX,
            ret.wf(),
            ret.counts_of(ws.subrange(0, k as int)),
            ret.max_positions@.len() == WORD_LEN,
        decreases words@.len() - k,
    {
        let word = &words[k];
        proof {
            assert(ws[k as int] == word@);
        }
        let mut i: usize = 0;
        while i < WORD_LEN
            invariant
                i <= WORD_LEN,
                k < ws.len(),
                ws == words.deep_view(),
                ws.len() == words@.len(),
                forall|ii: int| 0 <= ii < ws.len() ==> word_wf(#[trigger] ws[ii]),
                words@.len() * WORD_LEN <= usize::MAX,
                word@ == ws[k as int],
                ret.wf(),
                ret.max_positions@.len() == WORD_LEN,
                forall|p: int, c: char|
                    0 <= p < WORD_LEN && is_lower(c) ==> ret.spec_pos_count(p, c) == pos_count_of(
                        ws.subrange(0, k as int),
                        p,
                        c,
                    ) + if p < i && ws[k as int][p] == c {
                        1nat
                    } else {
                        0nat
                    },
                forall|c: char|
                    is_lower(c) ==> ret.spec_total_count(c) == total_count_of(
                        ws.subrange(0, k as int),
                        c,
                    ) + count_in(ws[k as int].subrange(0, i as int), c),
            decreases WORD_LEN - i,
        {
            let c = word.as_str().get_char(i);
            let ghost prefix = ws.subrange(0, k as int);
            proof {
                assert(word_wf(ws[k as int]));
                assert(is_lower(c));
                lemma_prefix_wf(ws, k as int);
                lemma_counts_bounded(prefix);
                lemma_count_in_le_len(ws[k as int].subrange(0, i as int), c);
                assert(ret.spec_pos_count(i as int, c) == pos_count_of(prefix, i as int, c));
                assert(ret.spec_pos_count(i as int, c) <= k);
                assert(ret.spec_total_count(c) <= WORD_LEN * k + i);
                assert((k + 1) * WORD_LEN <= ws.len() * WORD_LEN) by (nonlinear_arith)
                    requires
                        k < ws.len(),
                ;
            }
            let ghost ret0 = ret;
            ret.inc(i, c);
            proof {
                assert forall|p: int, cc: char|
                    0 <= p < WORD_LEN && is_lower(cc) implies ret.spec_pos_count(p, cc)
                    == pos_count_of(prefix, p, cc) + (if p < i + 1 && ws[k as int][p] == cc {
                    1nat
                } else {
                    0nat
                }) by {
                    assert(ret0.spec_pos_count(p, cc) == pos_count_of(prefix, p, cc) + (if p < i
                        && ws[k as int][p] == cc {
                        1nat
                    } else {
                        0nat
                    }));
                    if p == i && cc == c {
                        assert(ret.spec_pos_count(p, cc) == ret0.spec_pos_count(p, cc) + 1);
                    } else {
                        if p == i && cc != c {
                            assert(spec_letter_index(cc) != spec_letter_index(c));
                        }
                        assert(ret.positions@[p]@[spec_letter_index(cc)]
                            == ret0.positions@[p]@[spec_letter_index(cc)]);
                    }
                }
                assert forall|cc: char| is_lower(cc) implies ret.spec_total_count(cc)
                    == total_count_of(prefix, cc) + count_in(
                    ws[k as int].subrange(0, i + 1),
                    cc,
                ) by {
                    crate::words::lemma_count_in_extend(ws[k as int], i as int, cc);
                    if cc != c {
                        assert(spec_letter_index(cc) != spec_letter_index(c));
                    }
                }
            }
            i = i + 1;
        }
        proof {
            assert(ws[k as int].subrange(0, WORD_LEN as int) =~= ws[k as int]);
            lemma_counts_extend(ws, k as int);
            assert forall|p: int, c: char|
                0 <= p < WORD_LEN && is_lower(c) implies ret.spec_pos_count(p, c) == pos_count_of(
                ws.subrange(0, k + 1),
                p,
                c,
            ) by {
                assert(ret.spec_pos_count(p, c) == pos_count_of(ws.subrange(0, k as int), p, c)
                    + if p < WORD_LEN && ws[k as int][p] == c {
                    1nat
                } else {
                    0nat
                });
            }
        }
        k = k + 1;
    }
    proof {
        assert(ws.subrange(0, ws.len() as int) =~= ws);
    }
    ret.calc_maxs();
    ret
}

/// The statistics of the empty word set are all zero: a caller that
/// normalizes by a maximum must guard against the zero it gets here.
pub proof fn lemma_empty_counts(p: int, c: char)
    ensures
        pos_count_of(Seq::empty(), p, c) == 0,
        total_count_of(Seq::empty(), c) == 0,
{
}

/// A word in the set makes its own letter's positional count positive.
pub proof fn lemma_pos_count_member(ws: Seq<Seq<char>>, p: int, i: int)
    requires
        0 <= i < ws.len(),
        0 <= p < ws[i].len(),
    ensures
        pos_count_of(ws, p, ws[i][p]) >= 1,
    decreases ws.len(),
{
    if i < ws.len() - 1 {
        assert(ws.drop_last()[i] == ws[i]);
        lemma_pos_count_member(ws.drop_last(), p, i);
    }
}

/// Well-formedness carries over to a prefix of the word set.
pub proof fn lemma_prefix_wf(ws: Seq<Seq<char>>, k: int)
    requires
        0 <= k <= ws.len(),
        forall|i: int| 0 <= i < ws.len() ==> word_wf(#[trigger] ws[i]),
    ensures
        forall|i: int| 0 <= i < k ==> word_wf(#[trigger] ws.subrange(0, k)[i]),
{
    assert forall|i: int| 0 <= i < k implies word_wf(#[trigger] ws.subrange(0, k)[i]) by {
        assert(ws.subrange(0, k)[i] == ws[i]);
    }
}

/// Counts over a word-set prefix extend by the contribution of the next word.
pub proof fn lemma_counts_extend(ws: Seq<Seq<char>>, k: int)
    requires
        0 <= k < ws.len(),
    ensures
        forall|p: int, c: char|
            pos_count_of(ws.subrange(0, k + 1), p, c) == pos_count_of(ws.subrange(0, k), p, c)
                + if 0 <= p < ws[k].len() && ws[k][p] == c {
                1nat
            } else {
                0nat
            },
        forall|c: char|
            total_count_of(ws.subrange(0, k + 1), c) == total_count_of(ws.subrange(0, k), c)
                + count_in(ws[k], c),
{
    let t = ws.subrange(0, k + 1);
    assert(t.drop_last() =~= ws.subrange(0, k));
    assert(t.last() == ws[k]);
}

/// Every count of a word set is bounded by the size of the set, and every
/// total count by five times the size.
pub proof fn lemma_counts_bounded(ws: Seq<Seq<char>>)
    requires
        forall|i: int| 0 <= i < ws.len() ==> word_wf(#[trigger] ws[i]),
    ensures
        forall|p: int, c: char| pos_count_of(ws, p, c) <= ws.len(),
        forall|c: char| total_count_of(ws, c) <= WORD_LEN * ws.len(),
    decreases ws.len(),
{
    if ws.len() > 0 {
        assert forall|i: int| 0 <= i < ws.drop_last().len() implies word_wf(
            #[trigger] ws.drop_last()[i],
        ) by {
            assert(ws.drop_last()[i] == ws[i]);
        }
        lemma_counts_bounded(ws.drop_last());
        assert forall|p: int, c: char| pos_count_of(ws, p, c) <= ws.len() by {
            assert(pos_count_of(ws.drop_last(), p, c) <= ws.drop_last().len());
        }
        assert forall|c: char| total_count_of(ws, c) <= WORD_LEN * ws.len() by {
            assert(total_count_of(ws.drop_last(), c) <= WORD_LEN * ws.drop_last().len());
            lemma_count_in_le_len(ws.last(), c);
            assert(ws.last().len() == WORD_LEN);
        }
    }
}

} // verus!
