use wordle_solver::solver::batch_solve;
use wordle_solver::solver::histogram;
use wordle_solver::solver::solve;
use wordle_solver::solver::total_guesses;
use wordle_solver::solver::SolveError;

fn dict(words: &[&str]) -> Vec<String> {
    words.iter().map(|w| w.to_string()).collect()
}

#[test]
fn solve_finds_the_target() {
    let words = dict(&["elder", "crepe", "enter", "erode"]);
    let target = "elder".to_string();
    let session = solve(&target, &words).unwrap();
    assert_eq!(session.guess_count, session.guesses.len());
    assert!(1 <= session.guess_count && session.guess_count <= words.len());
    assert_eq!(session.guesses.last().unwrap(), &target);
    for g in &session.guesses {
        assert!(words.contains(g));
    }
    for a in 0..session.guesses.len() {
        for b in (a + 1)..session.guesses.len() {
            assert_ne!(session.guesses[a], session.guesses[b]);
        }
    }
}

#[test]
fn solve_single_word_dictionary_takes_one_guess() {
    let words = dict(&["elder"]);
    let session = solve(&"elder".to_string(), &words).unwrap();
    assert_eq!(session.guess_count, 1);
    assert_eq!(session.guesses, vec!["elder".to_string()]);
}

#[test]
fn solve_rejects_wrong_length() {
    let words = dict(&["elder", "crepe"]);
    let r = solve(&"abc".to_string(), &words);
    assert!(matches!(r, Err(SolveError::InvalidTargetLength)));
    let r = solve(&"abcdef".to_string(), &words);
    assert!(matches!(r, Err(SolveError::InvalidTargetLength)));
}

#[test]
fn solve_rejects_target_outside_dictionary() {
    // exhaustion scenario: a missing target is reported before any round
    let words = dict(&["elder", "crepe", "enter", "erode"]);
    let r = solve(&"quota".to_string(), &words);
    assert!(matches!(r, Err(SolveError::TargetNotInDictionary)));
}

#[test]
fn solve_every_target_within_dictionary_size() {
    let words = dict(&["elder", "crepe", "enter", "erode", "eerie", "llama"]);
    for target in &words {
        let session = solve(target, &words).unwrap();
        assert!(session.guess_count <= words.len());
        assert_eq!(session.guesses.last().unwrap(), target);
    }
}

#[test]
fn batch_reports_one_count_per_word() {
    let words = dict(&["elder", "crepe", "enter", "erode"]);
    let counts = batch_solve(&words);
    assert_eq!(counts.len(), words.len());
    for &c in &counts {
        assert!(1 <= c && c <= words.len());
    }
}

#[test]
fn batch_aggregates_total_and_histogram() {
    let words = dict(&["elder", "crepe", "enter", "erode"]);
    let counts = batch_solve(&words);
    let total = total_guesses(&counts);
    assert_eq!(total, counts.iter().sum::<usize>());
    let hist = histogram(&counts, words.len() + 1);
    assert_eq!(hist.len(), words.len() + 1);
    assert_eq!(hist.iter().sum::<usize>(), counts.len());
    for (value, &times) in hist.iter().enumerate() {
        assert_eq!(times, counts.iter().filter(|&&c| c == value).count());
    }
}

#[test]
fn histogram_counts_exact_buckets() {
    let counts = vec![1usize, 2, 2, 3, 1, 1];
    let hist = histogram(&counts, 4);
    assert_eq!(hist, vec![0, 3, 2, 1]);
}

#[test]
fn total_guesses_sums_counts() {
    let counts = vec![1usize, 2, 3, 4];
    assert_eq!(total_guesses(&counts), 10);
}
