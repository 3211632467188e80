use wordle_solver::filter::is_consistent;
use wordle_solver::freq::get_letter_freqs;
use wordle_solver::freq::LetterFreq;
use wordle_solver::knowledge::GeneralInfo;
use wordle_solver::knowledge::KnownInfo;
use wordle_solver::knowledge::PositionInfo;
use wordle_solver::knowledge::make_guess;
use wordle_solver::score::get_best_word;
use wordle_solver::score::get_scores;
use wordle_solver::words::count_letter;
use wordle_solver::words::letter_index;
use wordle_solver::words::letter_of;

fn dict(words: &[&str]) -> Vec<String> {
    words.iter().map(|w| w.to_string()).collect()
}

#[test]
fn test_scoring() {}

#[test]
fn letters_roundtrip() {
    assert_eq!(letter_index('a'), 0);
    assert_eq!(letter_index('z'), 25);
    assert_eq!(letter_of(0), 'a');
    assert_eq!(letter_of(25), 'z');
    for i in 0..26 {
        assert_eq!(letter_index(letter_of(i)), i);
    }
}

#[test]
fn count_letter_counts_repeats() {
    let w = "elder".to_string();
    assert_eq!(count_letter(&w, 'e'), 2);
    assert_eq!(count_letter(&w, 'l'), 1);
    assert_eq!(count_letter(&w, 'z'), 0);
}

#[test]
fn letter_freqs_exact_counts() {
    let words = dict(&["abcde", "abcdf"]);
    let freqs = get_letter_freqs(&words);
    assert_eq!(freqs.get_pos_count(0, 'a'), 2);
    assert_eq!(freqs.get_pos_count(1, 'b'), 2);
    assert_eq!(freqs.get_pos_count(4, 'e'), 1);
    assert_eq!(freqs.get_pos_count(4, 'f'), 1);
    assert_eq!(freqs.get_pos_count(0, 'z'), 0);
    assert_eq!(freqs.get_total_count('a'), 2);
    assert_eq!(freqs.get_total_count('e'), 1);
    assert_eq!(freqs.get_total_count('z'), 0);
    assert_eq!(freqs.get_pos_max(0), 2);
    assert_eq!(freqs.get_pos_max(4), 1);
    assert_eq!(freqs.get_total_max(), 2);
}

#[test]
fn letter_freqs_double_count_repeats() {
    let words = dict(&["eerie"]);
    let freqs = get_letter_freqs(&words);
    assert_eq!(freqs.get_total_count('e'), 3);
    assert_eq!(freqs.get_pos_count(0, 'e'), 1);
    assert_eq!(freqs.get_pos_count(1, 'e'), 1);
    assert_eq!(freqs.get_pos_count(4, 'e'), 1);
}

#[test]
fn empty_statistics_are_all_zero() {
    let words: Vec<String> = Vec::new();
    let freqs = get_letter_freqs(&words);
    for i in 0..26 {
        let c = letter_of(i);
        assert_eq!(freqs.get_total_count(c), 0);
        for p in 0..5 {
            assert_eq!(freqs.get_pos_count(p, c), 0);
        }
    }
    for p in 0..5 {
        assert_eq!(freqs.get_pos_max(p), 0);
    }
    assert_eq!(freqs.get_total_max(), 0);
}

#[test]
fn empty_statistics_score_without_fault() {
    // A zero maximal total count must not fault the normalized score.
    let words = dict(&["abcde"]);
    let empty: Vec<String> = Vec::new();
    let freqs = get_letter_freqs(&empty);
    let info = KnownInfo::new();
    let scores = get_scores(&words, &freqs, &info);
    assert_eq!(scores, vec![0]);
}

#[test]
fn scores_follow_the_formula() {
    let words = dict(&["abcde", "abcdf"]);
    let freqs = get_letter_freqs(&words);
    let info = KnownInfo::new();
    let scores = get_scores(&words, &freqs, &info);
    // positional part 2+2+2+2+1 = 9, total part 9, normalized 9*2/2/3 = 3
    assert_eq!(scores, vec![12, 12]);
}

#[test]
fn best_word_takes_first_on_ties() {
    let words = dict(&["abcde", "abcdf"]);
    let scores = vec![12usize, 12usize];
    assert_eq!(get_best_word(&words, &scores), "abcde".to_string());
}

#[test]
fn best_word_takes_strict_maximum() {
    let words = dict(&["abcde", "abcdf", "abcdg"]);
    let scores = vec![3usize, 9usize, 9usize];
    assert_eq!(get_best_word(&words, &scores), "abcdf".to_string());
}

#[test]
fn best_word_empty_on_all_zero() {
    let words: Vec<String> = Vec::new();
    let scores: Vec<usize> = Vec::new();
    assert_eq!(get_best_word(&words, &scores), String::new());
}

#[test]
fn is_enough_exact_and_lower_bound() {
    let exact2 = GeneralInfo { exactly: true, count: 2 };
    assert!(exact2.is_enough(2));
    assert!(!exact2.is_enough(1));
    assert!(!exact2.is_enough(3));
    let atleast1 = GeneralInfo { exactly: false, count: 1 };
    assert!(atleast1.is_enough(1));
    assert!(atleast1.is_enough(4));
    assert!(!atleast1.is_enough(0));
}

#[test]
fn make_guess_derives_position_and_count_facts() {
    // guess "enter" against target "elder"
    let guess = "enter".to_string();
    let target = "elder".to_string();
    let mut info = KnownInfo::new();
    make_guess(&guess, &target, &mut info);

    assert!(matches!(info.pos_info[0], PositionInfo::Fixed('e')));
    assert!(matches!(&info.pos_info[1], PositionInfo::Excluded(v) if v == &vec!['n']));
    assert!(matches!(&info.pos_info[2], PositionInfo::Excluded(v) if v == &vec!['t']));
    assert!(matches!(info.pos_info[3], PositionInfo::Fixed('e')));
    assert!(matches!(info.pos_info[4], PositionInfo::Fixed('r')));

    // 'e' twice in the guess, twice in the target: at least two
    let e = info.get_count('e');
    assert!(!e.exactly);
    assert_eq!(e.count, 2);
    // 'n' and 't' are absent from the target: exactly zero
    let n = info.get_count('n');
    assert!(n.exactly);
    assert_eq!(n.count, 0);
    let t = info.get_count('t');
    assert!(t.exactly);
    assert_eq!(t.count, 0);
    // 'r' once in each: at least one
    let r = info.get_count('r');
    assert!(!r.exactly);
    assert_eq!(r.count, 1);
}

#[test]
fn make_guess_overguessed_letter_is_exact() {
    // guess "geese" holds three 'e', target "elder" only two
    let guess = "geese".to_string();
    let target = "elder".to_string();
    let mut info = KnownInfo::new();
    make_guess(&guess, &target, &mut info);
    let e = info.get_count('e');
    assert!(e.exactly);
    assert_eq!(e.count, 2);
}

#[test]
fn repeated_derivation_tightens_no_further() {
    // deriving the same feedback twice leaves the same facts
    let guess = "enter".to_string();
    let target = "elder".to_string();
    let mut once = KnownInfo::new();
    make_guess(&guess, &target, &mut once);
    let mut twice = KnownInfo::new();
    make_guess(&guess, &target, &mut twice);
    make_guess(&guess, &target, &mut twice);
    for i in 0..26 {
        let c = letter_of(i);
        let a = once.get_count(c);
        let b = twice.get_count(c);
        assert_eq!(a.exactly, b.exactly);
        assert_eq!(a.count, b.count);
    }
    for i in 0..5 {
        match (&once.pos_info[i], &twice.pos_info[i]) {
            (PositionInfo::Unconstrained, PositionInfo::Unconstrained) => {}
            (PositionInfo::Fixed(a), PositionInfo::Fixed(b)) => assert_eq!(a, b),
            (PositionInfo::Excluded(a), PositionInfo::Excluded(b)) => {
                // the letter lists may repeat entries; compare as sets
                for c in a.iter() {
                    assert!(b.contains(c));
                }
                for c in b.iter() {
                    assert!(a.contains(c));
                }
            }
            _ => panic!("position facts diverged"),
        }
    }
}

#[test]
fn is_consistent_checks_every_fact_family() {
    let mut info = KnownInfo::new();
    info.pos_info = vec![
        PositionInfo::Unconstrained,
        PositionInfo::Unconstrained,
        PositionInfo::Unconstrained,
        PositionInfo::Fixed('e'),
        PositionInfo::Fixed('r'),
    ];
    assert!(is_consistent(&"elder".to_string(), &info));
    assert!(!is_consistent(&"eerie".to_string(), &info));
    info.set_count('l', 0, true);
    assert!(!is_consistent(&"elder".to_string(), &info));
}

#[test]
fn get_possible_words() {
    let words = dict(&["abide", "elder", "eject", "erase", "older", "under", "every", "leery"]);
    let mut info = KnownInfo::new();
    info.pos_info = vec![
        PositionInfo::Unconstrained,
        PositionInfo::Excluded(vec!['e']),
        PositionInfo::Unconstrained,
        PositionInfo::Fixed('e'),
        PositionInfo::Fixed('r'),
    ];
    for c in ['t', 'y', 'u', 'i', 'o', 'p', 'a', 's', 'f', 'g', 'h', 'c', 'n', 'm'] {
        info.set_count(c, 0, true);
    }
    let pos_words = wordle_solver::filter::get_possible_words(&info, &words);
    assert_eq!(pos_words, vec!["elder".to_string()]);
}

#[test]
fn filtering_never_grows_the_candidate_set() {
    let words = dict(&["elder", "crepe", "enter", "erode"]);
    let guess = "enter".to_string();
    let target = "elder".to_string();
    let mut info = KnownInfo::new();
    let first = wordle_solver::filter::get_possible_words(&info, &words);
    assert_eq!(first.len(), words.len());
    make_guess(&guess, &target, &mut info);
    let second = wordle_solver::filter::get_possible_words(&info, &first);
    assert!(second.len() <= first.len());
}

#[test]
fn filtering_retains_the_target() {
    let words = dict(&["elder", "crepe", "enter", "erode"]);
    let guess = "enter".to_string();
    let target = "elder".to_string();
    let mut info = KnownInfo::new();
    make_guess(&guess, &target, &mut info);
    let remaining = wordle_solver::filter::get_possible_words(&info, &words);
    assert!(remaining.contains(&target));
    // the wrong guess itself is gone
    assert!(!remaining.contains(&guess));
}

#[test]
fn letter_freq_new_is_all_zero() {
    let freqs = LetterFreq::new();
    assert_eq!(freqs.get_pos_count(2, 'k'), 0);
    assert_eq!(freqs.get_total_count('k'), 0);
    assert_eq!(freqs.get_total_max(), 0);
}
