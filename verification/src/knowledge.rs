//! The knowledge state of one solving session: per-position facts and
//! per-letter occurrence facts accumulated from every guess made so far,
//! and the feedback derivation that tightens them after a guess.

use vstd::prelude::*;
use vstd::string::StrSliceExecFns;
use crate::words::ALPHABET;
use crate::words::WORD_LEN;
use crate::words::count_in;
use crate::words::count_letter;
use crate::words::is_lower;
use crate::words::letter_index;
use crate::words::letter_of;
use crate::words::spec_letter_index;
use crate::words::word_wf;
use crate::words::lemma_unequal_words_differ;

verus! {

/// What is known about one position of the hidden word.
pub enum PositionInfo {
    /// Nothing is known about this position yet.
    Unconstrained,
    /// None of the listed letters stands at this position.
    Excluded(Vec<char>),
    /// Exactly this letter stands at this position.
    Fixed(char),
}

/// What is known about the occurrence count of one letter.
#[derive(Clone, Copy)]
pub struct GeneralInfo {
    /// When set, `count` is the exact number of occurrences; otherwise it is
    /// only a lower bound.
    pub exactly: bool,
    /// The occurrence bound.
    pub count: usize,
}

/// The accumulated knowledge of one session: one position fact per letter
/// position, one count fact per letter of the alphabet.
pub struct KnownInfo {
    /// Position facts, one for each of the five positions.
    pub pos_info: Vec<PositionInfo>,
    /// Count facts, indexed by alphabet index.
    pub count: Vec<GeneralInfo>,
}

/// Mathematical form of a position fact: the excluded letters as a set.
#[verifier::ext_equal]
pub enum PosFact {
    /// Nothing known.
    Unconstrained,
    /// The position holds none of these letters.
    Excluded(Set<char>),
    /// The position holds exactly this letter.
    Fixed(char),
}

/// Mathematical form of a count fact.
#[verifier::ext_equal]
pub struct CountFact {
    /// Whether `bound` is exact rather than a lower bound.
    pub exact: bool,
    /// The occurrence bound.
    pub bound: nat,
}

/// Mathematical form of the whole knowledge state.
#[verifier::ext_equal]
pub struct Knowledge {
    /// One fact per position.
    pub pos: Seq<PosFact>,
    /// One fact per lowercase letter.
    pub counts: Map<char, CountFact>,
}

/// The set form of an excluded-letter list.
pub open spec fn pos_fact_of(p: PositionInfo) -> PosFact {
    match p {
        PositionInfo::Unconstrained => PosFact::Unconstrained,
        PositionInfo::Excluded(v) => PosFact::Excluded(v@.to_set()),
        PositionInfo::Fixed(c) => PosFact::Fixed(c),
    }
}

/// The mathematical form of a count fact.
pub open spec fn fact_of(g: GeneralInfo) -> CountFact {
    CountFact { exact: g.exactly, bound: g.count as nat }
}

impl View for KnownInfo {
    type V = Knowledge;

    open spec fn view(&self) -> Knowledge {
        Knowledge {
            pos: Seq::new(self.pos_info@.len(), |i: int| pos_fact_of(self.pos_info@[i])),
            counts: Map::new(
                |c: char| is_lower(c),
                |c: char| fact_of(self.count@[spec_letter_index(c)]),
            ),
        }
    }
}

/// Shape of a knowledge state: five position facts, 26 count facts.
pub open spec fn knowledge_wf(k: Knowledge) -> bool {
    &&& k.pos.len() == WORD_LEN
    &&& forall|c: char| is_lower(c) ==> k.counts.dom().contains(c)
}

/// A word obeys a position fact at a position holding the letter `c`.
pub open spec fn pos_fact_ok(f: PosFact, c: char) -> bool {
    match f {
        PosFact::Unconstrained => true,
        PosFact::Excluded(s) => !s.contains(c),
        PosFact::Fixed(fc) => c == fc,
    }
}

/// A word with `found` occurrences of a letter obeys that letter's count fact.
pub open spec fn count_fact_ok(f: CountFact, found: nat) -> bool {
    if f.exact {
        found == f.bound
    } else {
        found >= f.bound
    }
}

/// The word `w` is consistent with every fact of the knowledge state `k`.
pub open spec fn consistent(w: Seq<char>, k: Knowledge) -> bool {
    &&& forall|i: int| 0 <= i < WORD_LEN ==> pos_fact_ok(#[trigger] k.pos[i], w[i])
    &&& forall|c: char| is_lower(c) ==> count_fact_ok(#[trigger] k.counts[c], count_in(w, c))
}

/// The knowledge state before any guess: nothing known anywhere.
pub open spec fn initial_knowledge() -> Knowledge {
    Knowledge {
        pos: Seq::new(WORD_LEN as nat, |i: int| PosFact::Unconstrained),
        counts: Map::new(|c: char| is_lower(c), |c: char| CountFact { exact: false, bound: 0 }),
    }
}

/// The position fact at position `i` after comparing guess and target there:
/// a hit fixes the letter, a miss excludes it, a fixed position stays fixed.
pub open spec fn derive_pos_fact(g: Seq<char>, t: Seq<char>, f: PosFact, i: int) -> PosFact {
    if g[i] == t[i] {
        PosFact::Fixed(g[i])
    } else {
        match f {
            PosFact::Unconstrained => PosFact::Excluded(Set::empty().insert(g[i])),
            PosFact::Excluded(s) => PosFact::Excluded(s.insert(g[i])),
            PosFact::Fixed(c) => PosFact::Fixed(c),
        }
    }
}

/// The count fact for letter `c` after a guess: a letter guessed no more
/// often than the target holds it yields a lower bound, a letter overguessed
/// yields the exact target count, a letter not guessed changes nothing.
pub open spec fn derive_count_fact(g: Seq<char>, t: Seq<char>, f: CountFact, c: char) -> CountFact {
    let gc = count_in(g, c);
    let tc = count_in(t, c);
    if gc == 0 {
        f
    } else if gc <= tc {
        if f.exact {
            f
        } else {
            CountFact {
                exact: false,
                bound: if f.bound >= gc {
                    f.bound
                } else {
                    gc
                },
            }
        }
    } else {
        CountFact { exact: true, bound: tc }
    }
}

/// The whole knowledge state after deriving feedback for one guess against
/// the target: every position fact and every count fact tightened.
pub open spec fn derive_feedback(g: Seq<char>, t: Seq<char>, k: Knowledge) -> Knowledge {
    Knowledge {
        pos: Seq::new(k.pos.len(), |i: int| derive_pos_fact(g, t, k.pos[i], i)),
        counts: Map::new(
            |c: char| is_lower(c),
            |c: char| derive_count_fact(g, t, k.counts[c], c),
        ),
    }
}

impl GeneralInfo {
    /// The empty count fact: lower bound zero.
    pub fn new() -> (g: GeneralInfo)
        ensures
            g.exactly == false,
            g.count == 0,
    {
        GeneralInfo { exactly: false, count: 0 }
    }

    /// Whether a word holding `found_count` occurrences of the letter obeys
    /// this count fact.
    pub fn is_enough(&self, found_count: usize) -> (r: bool)
        ensures
            r == count_fact_ok(fact_of(*self), found_count as nat),
    {
        if self.exactly {
            if found_count == self.count {
                return true;
            }
        } else {
            if found_count >= self.count {
                return true;
            }
        }
        false
    }
}

impl KnownInfo {
    /// Shape of the tables: five position facts, 26 count facts.
    pub open spec fn wf(self) -> bool {
        &&& self.pos_info@.len() == WORD_LEN
        &&& self.count@.len() == ALPHABET
    }

    /// A knowledge state with nothing known.
    pub fn new() -> (k: KnownInfo)
        ensures
            k.wf(),
            k@ == initial_knowledge(),
    {
        let mut pos_info: Vec<PositionInfo> = Vec::new();
        let mut i: usize = 0;
        while i < WORD_LEN
            invariant
                i <= WORD_LEN,
                pos_info@.len() == i,
                forall|j: int|
                    0 <= j < i ==> #[trigger] pos_info@[j] is Unconstrained,
            decreases WORD_LEN - i,
        {
            pos_info.push(PositionInfo::Unconstrained);
            i = i + 1;
        }
        let mut count: Vec<GeneralInfo> = Vec::new();
        let mut j: usize = 0;
        while j < ALPHABET
            invariant
                j <= ALPHABET,
                count@.len() == j,
                forall|l: int|
                    0 <= l < j ==> (#[trigger] count@[l]).exactly == false && count@[l].count == 0,
            decreases ALPHABET - j,
        {
            count.push(GeneralInfo::new());
            j = j + 1;
        }
        let k = KnownInfo { pos_info, count };
        proof {
            assert(k@.pos =~= initial_knowledge().pos);
            assert(k@.counts =~= initial_knowledge().counts);
            assert(k@ =~= initial_knowledge());
        }
        k
    }

    /// The count fact recorded for `letter`.
    pub fn get_count(&self, letter: char) -> (g: GeneralInfo)
        requires
            self.wf(),
            is_lower(letter),
        ensures
            fact_of(g) == self@.counts[letter],
    {
        self.count[letter_index(letter)]
    }

    /// Overwrites the count fact for `letter`; every other fact is kept.
    pub fn set_count(&mut self, letter: char, amount: usize, exactly: bool)
        requires
            old(self).wf(),
            is_lower(letter),
        ensures
            final(self).wf(),
            final(self)@.pos == old(self)@.pos,
            final(self)@.counts == old(self)@.counts.insert(
                letter,
                CountFact { exact: exactly, bound: amount as nat },
            ),
    {
        let idx = letter_index(letter);
        self.count[idx] = GeneralInfo { exactly, count: amount };
        proof {
            assert(final(self)@.pos =~= old(self)@.pos);
            assert forall|c: char| is_lower(c) implies self@.counts[c] == old(self)@.counts.insert(
                letter,
                CountFact { exact: exactly, bound: amount as nat },
            )[c] by {
                if c != letter {
                    assert(spec_letter_index(c) != spec_letter_index(letter));
                }
            }
            assert(self@.counts =~= old(self)@.counts.insert(
                letter,
                CountFact { exact: exactly, bound: amount as nat },
            ));
        }
    }
}

/// An element-for-element copy of a letter list.
fn copy_chars(v: &Vec<char>) -> (r: Vec<char>)
    ensures
        r@ == v@,
{
    let mut r: Vec<char> = Vec::new();
    let mut i: usize = 0;
    while i < v.len()
        invariant
            i <= v@.len(),
            r@ == v@.subrange(0, i as int),
        decreases v@.len() - i,
    {
        r.push(v[i]);
        proof {
            assert(r@ =~= v@.subrange(0, i + 1));
        }
        i = i + 1;
    }
    proof {
        assert(v@.subrange(0, v@.len() as int) =~= v@);
    }
    r
}

/// Appending a letter to a list inserts it into the list's set of letters.
pub proof fn lemma_to_set_push(v: Seq<char>, c: char)
    ensures
        v.push(c).to_set() =~= v.to_set().insert(c),
{
    assert forall|x: char| v.push(c).to_set().contains(x) implies v.to_set().insert(c).contains(
        x,
    ) by {
        let i = choose|i: int| 0 <= i < v.push(c).len() && v.push(c)[i] == x;
        if i < v.len() {
            assert(v[i] == x);
        }
    }
    assert forall|x: char| v.to_set().insert(c).contains(x) implies v.push(c).to_set().contains(
        x,
    ) by {
        if x == c {
            assert(v.push(c)[v.len() as int] == x);
        } else {
            let i = choose|i: int| 0 <= i < v.len() && v[i] == x;
            assert(v.push(c)[i] == x);
        }
    }
}

/// Derives the feedback of one guess against the target and tightens the
/// knowledge state by it: hits fix positions, misses extend the exclusions,
/// and the letter counts of the guess tighten the count facts.
pub fn make_guess(guess: &String, target: &String, info: &mut KnownInfo)
    requires
        word_wf(guess@),
        word_wf(target@),
        old(info).wf(),
    ensures
        final(info).wf(),
        final(info)@ == derive_feedback(guess@, target@, old(info)@),
{
    let ghost k0 = info@;
    // position facts
    let mut new_pos: Vec<PositionInfo> = Vec::new();
    let mut i: usize = 0;
    while i < WORD_LEN
        invariant
            i <= WORD_LEN,
            info == old(info),
            info.wf(),
            k0 == info@,
            word_wf(guess@),
            word_wf(target@),
            new_pos@.len() == i,
            forall|j: int|
                0 <= j < i ==> pos_fact_of(#[trigger] new_pos@[j]) == derive_pos_fact(
                    guess@,
                    target@,
                    k0.pos[j],
                    j,
                ),
        decreases WORD_LEN - i,
    {
        let gc = guess.as_str().get_char(i);
        let tc = target.as_str().get_char(i);
        let fact: PositionInfo = if gc == tc {
            PositionInfo::Fixed(gc)
        } else {
            match &info.pos_info[i] {
                PositionInfo::Unconstrained => {
                    let mut v: Vec<char> = Vec::new();
                    v.push(gc);
                    proof {
                        lemma_to_set_push(Seq::<char>::empty(), gc);
                        assert(v@ =~= Seq::<char>::empty().push(gc));
                    }
                    PositionInfo::Excluded(v)
                },
                PositionInfo::Excluded(not_chars) => {
                    let mut v = copy_chars(not_chars);
                    v.push(gc);
                    proof {
                        lemma_to_set_push(not_chars@, gc);
                    }
                    PositionInfo::Excluded(v)
                },
                PositionInfo::Fixed(c) => PositionInfo::Fixed(*c),
            }
        };
        proof {
            assert(k0.pos[i as int] == pos_fact_of(info.pos_info@[i as int]));
        }
        new_pos.push(fact);
        i = i + 1;
    }
    info.pos_info = new_pos;
    proof {
        assert(info@.pos =~= derive_feedback(guess@, target@, k0).pos);
        assert(info@.counts =~= k0.counts);
    }
    // count facts
    let ghost k1 = info@;
    let mut j: usize = 0;
    while j < ALPHABET
        invariant
            j <= ALPHABET,
            info.wf(),
            word_wf(guess@),
            word_wf(target@),
            info@.pos == k1.pos,
            forall|c: char|
                is_lower(c) && spec_letter_index(c) < j ==> #[trigger] info@.counts[c]
                    == derive_count_fact(guess@, target@, k1.counts[c], c),
            forall|c: char|
                is_lower(c) && spec_letter_index(c) >= j ==> #[trigger] info@.counts[c]
                    == k1.counts[c],
        decreases ALPHABET - j,
    {
        let c = letter_of(j);
        let gcnt = count_letter(guess, c);
        let ghost counts_before = info@.counts;
        if gcnt > 0 {
            let tcnt = count_letter(target, c);
            if gcnt <= tcnt {
                let cur = info.get_count(c);
                if !cur.exactly {
                    let nb = if cur.count >= gcnt {
                        cur.count
                    } else {
                        gcnt
                    };
                    info.set_count(c, nb, false);
                }
            } else {
                info.set_count(c, tcnt, true);
            }
        }
        proof {
            assert forall|cc: char| is_lower(cc) && spec_letter_index(cc) < j + 1 implies #[trigger] info@.counts[cc]
                == derive_count_fact(guess@, target@, k1.counts[cc], cc) by {
                if cc == c {
                    assert(counts_before[c] == k1.counts[c]);
                } else {
                    assert(spec_letter_index(cc) != spec_letter_index(c));
                    assert(info@.counts[cc] == counts_before[cc]);
                }
            }
            assert forall|cc: char| is_lower(cc) && spec_letter_index(cc) >= j + 1 implies #[trigger] info@.counts[cc]
                == k1.counts[cc] by {
                assert(spec_letter_index(cc) != spec_letter_index(c));
            }
        }
        j = j + 1;
    }
    proof {
        assert forall|c: char| is_lower(c) implies info@.counts[c] == derive_feedback(
            guess@,
            target@,
            k0,
        ).counts[c] by {
            assert(spec_letter_index(c) < ALPHABET);
            assert(k1.counts[c] == k0.counts[c]);
        }
        assert(info@.counts =~= derive_feedback(guess@, target@, k0).counts);
        assert(info@.pos =~= derive_feedback(guess@, target@, k0).pos);
        assert(info@ =~= derive_feedback(guess@, target@, k0));
    }
}

/// Before any guess, every well-formed word is still a candidate: the empty
/// knowledge state is consistent with every word.
pub proof fn lemma_initial_consistent(w: Seq<char>)
    requires
        word_wf(w),
    ensures
        consistent(w, initial_knowledge()),
{
}

/// Deriving feedback keeps the knowledge state well-formed.
pub proof fn lemma_derive_wf(g: Seq<char>, t: Seq<char>, k: Knowledge)
    requires
        knowledge_wf(k),
    ensures
        knowledge_wf(derive_feedback(g, t, k)),
{
}

/// Feedback derived against the target never rules the target itself out:
/// a word consistent with the knowledge state stays consistent after
/// feedback for any guess is derived against it as the target.
pub proof fn lemma_derive_preserves_target(g: Seq<char>, t: Seq<char>, k: Knowledge)
    requires
        word_wf(t),
        knowledge_wf(k),
        consistent(t, k),
    ensures
        consistent(t, derive_feedback(g, t, k)),
{
    let k1 = derive_feedback(g, t, k);
    assert forall|i: int| 0 <= i < WORD_LEN implies pos_fact_ok(#[trigger] k1.pos[i], t[i]) by {
        assert(pos_fact_ok(k.pos[i], t[i]));
    }
    assert forall|c: char| is_lower(c) implies count_fact_ok(
        #[trigger] k1.counts[c],
        count_in(t, c),
    ) by {
        assert(count_fact_ok(k.counts[c], count_in(t, c)));
    }
}

/// A wrong guess is always eliminated: after feedback for a guess other than
/// the target is derived, the guess itself is no longer consistent.
pub proof fn lemma_derive_eliminates_guess(g: Seq<char>, t: Seq<char>, k: Knowledge)
    requires
        word_wf(g),
        word_wf(t),
        g != t,
        knowledge_wf(k),
        consistent(g, k),
        consistent(t, k),
    ensures
        !consistent(g, derive_feedback(g, t, k)),
{
    let k1 = derive_feedback(g, t, k);
    lemma_unequal_words_differ(g, t);
    let i = choose|i: int| 0 <= i < g.len() && g[i] != t[i];
    assert(pos_fact_ok(k.pos[i], g[i]));
    assert(pos_fact_ok(k.pos[i], t[i]));
    match k.pos[i] {
        PosFact::Unconstrained => {
            assert(k1.pos[i] == PosFact::Excluded(Set::empty().insert(g[i])));
            assert(!pos_fact_ok(k1.pos[i], g[i]));
        },
        PosFact::Excluded(s) => {
            assert(k1.pos[i] == PosFact::Excluded(s.insert(g[i])));
            assert(!pos_fact_ok(k1.pos[i], g[i]));
        },
        PosFact::Fixed(c) => {
            assert(g[i] == c && t[i] == c);
        },
    }
}

/// Deriving the same feedback twice tightens no further: feedback
/// derivation is idempotent in the guess and target.
pub proof fn lemma_derive_idempotent(g: Seq<char>, t: Seq<char>, k: Knowledge)
    requires
        knowledge_wf(k),
    ensures
        derive_feedback(g, t, derive_feedback(g, t, k)) == derive_feedback(g, t, k),
{
    let k1 = derive_feedback(g, t, k);
    let k2 = derive_feedback(g, t, k1);
    assert forall|i: int| 0 <= i < k1.pos.len() implies #[trigger] k2.pos[i] == k1.pos[i] by {
        if g[i] != t[i] {
            match k.pos[i] {
                PosFact::Unconstrained => {
                    let s = Set::empty().insert(g[i]);
                    assert(s.insert(g[i]) =~= s);
                },
                PosFact::Excluded(s) => {
                    assert(s.insert(g[i]).insert(g[i]) =~= s.insert(g[i]));
                },
                PosFact::Fixed(_) => {},
            }
        }
    }
    assert(k2.pos =~= k1.pos);
    assert forall|c: char| is_lower(c) implies #[trigger] k2.counts[c] == k1.counts[c] by {
        assert(k1.counts[c] == derive_count_fact(g, t, k.counts[c], c));
    }
    assert(k2.counts =~= k1.counts);
    assert(k2 =~= k1);
}

} // verus!
