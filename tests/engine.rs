use wordle_solver::{
    filter_candidates, filter_wordlist, get_all_possiblities, parse_feedback, parse_word,
    word_fits, ConstraintState, FeedbackSymbol, LetterSet, SolverError, Word,
};

use FeedbackSymbol::{Absent, Correct, Misplaced};

fn w(s: &str) -> Word {
    parse_word(s).unwrap()
}

fn words(list: &[&str]) -> Vec<Word> {
    list.iter().map(|s| w(s)).collect()
}

fn sorted(set: &LetterSet) -> Vec<char> {
    let mut v = set.to_vec();
    v.sort();
    v
}

type Snapshot = ([Option<char>; 5], Vec<char>, Vec<Vec<char>>, Vec<char>);

fn snapshot(state: &ConstraintState) -> Snapshot {
    (
        state.known,
        sorted(&state.excluded_globally),
        state.excluded_at_position.iter().map(sorted).collect(),
        sorted(&state.present_somewhere),
    )
}

fn letterwise(guess: &Word, target: &Word) -> [FeedbackSymbol; 5] {
    let mut out = [Absent; 5];
    for i in 0..5 {
        out[i] = if guess[i] == target[i] {
            Correct
        } else if target.contains(&guess[i]) {
            Misplaced
        } else {
            Absent
        };
    }
    out
}

#[test]
fn apple_fold_sets_known_and_exclusions() {
    let mut state = ConstraintState::new();
    state.fold(&w("apple"), &[Absent, Absent, Correct, Correct, Correct]);
    assert_eq!(state.known, [None, None, Some('p'), Some('l'), Some('e')]);
    assert!(state.excluded_globally.contains('a'));
    assert!(!state.excluded_globally.contains('p'));
    assert!(!state.excluded_globally.contains('l'));
    assert!(!state.excluded_globally.contains('e'));
    assert_eq!(sorted(&state.excluded_globally), vec!['a']);
    // "apple" holds the excluded 'a', so the filter drops it with the rest.
    let kept = filter_candidates(&words(&["apple", "mango", "grape"]), &state);
    assert!(kept.is_empty());
}

#[test]
fn apple_round_reports_empty_candidate_set() {
    let mut state = ConstraintState::new();
    let list = words(&["apple", "mango", "grape"]);
    let r = filter_wordlist(&mut state, &w("apple"), "XXZZZ", &list);
    assert_eq!(r, Err(SolverError::EmptyCandidateSet));
    assert_eq!(state.known, [None, None, Some('p'), Some('l'), Some('e')]);
}

#[test]
fn known_first_letter_keeps_words_starting_with_it() {
    let mut state = ConstraintState::new();
    state.known = [Some('c'), None, None, None, None];
    let kept = filter_candidates(&words(&["crane", "stone", "climb"]), &state);
    assert_eq!(kept, words(&["crane", "climb"]));
}

#[test]
fn malformed_symbol_leaves_state_unchanged() {
    for pos in 0..5 {
        let mut state = ConstraintState::new();
        state.fold(&w("crane"), &[Correct, Absent, Misplaced, Absent, Absent]);
        let before = snapshot(&state);
        let mut text: Vec<char> = "XYZXY".chars().collect();
        text[pos] = 'Q';
        let text: String = text.into_iter().collect();
        let r = state.fold_feedback(&w("stone"), &text);
        assert_eq!(r, Err(SolverError::MalformedFeedback));
        assert_eq!(snapshot(&state), before);
    }
}

#[test]
fn malformed_round_leaves_state_unchanged() {
    let mut state = ConstraintState::new();
    let before = snapshot(&state);
    let r = filter_wordlist(&mut state, &w("crane"), "XXQXX", &words(&["crane"]));
    assert_eq!(r, Err(SolverError::MalformedFeedback));
    assert_eq!(snapshot(&state), before);
}

#[test]
fn present_letter_must_occur() {
    let mut state = ConstraintState::new();
    state.present_somewhere.insert('z');
    let kept = filter_candidates(&words(&["fizzy", "happy"]), &state);
    assert_eq!(kept, words(&["fizzy"]));
}

#[test]
fn folding_twice_equals_folding_once() {
    let rounds: [(&str, [FeedbackSymbol; 5]); 3] = [
        ("apple", [Absent, Absent, Correct, Correct, Correct]),
        ("speed", [Misplaced, Absent, Correct, Absent, Misplaced]),
        ("crane", [Correct, Correct, Absent, Misplaced, Absent]),
    ];
    for (guess, fb) in rounds.iter() {
        let mut once = ConstraintState::new();
        once.fold(&w(guess), fb);
        let mut twice = ConstraintState::new();
        twice.fold(&w(guess), fb);
        twice.fold(&w(guess), fb);
        assert_eq!(snapshot(&once), snapshot(&twice));
    }
}

#[test]
fn folds_narrow_the_candidates() {
    let list = words(&["crane", "crate", "trace", "grace", "brace", "caret", "react", "cater"]);
    let mut state = ConstraintState::new();
    let target = w("grace");
    let mut previous = filter_candidates(&list, &state);
    assert_eq!(previous, list);
    for guess in ["crane", "trace", "brace"].iter() {
        let fb = letterwise(&w(guess), &target);
        state.fold(&w(guess), &fb);
        let now = filter_candidates(&list, &state);
        for word in now.iter() {
            assert!(previous.contains(word));
        }
        assert!(now.len() <= previous.len());
        previous = now;
    }
    assert_eq!(previous, words(&["grace"]));
}

#[test]
fn filter_keeps_exactly_the_fitting_words() {
    let list = words(&["crane", "stone", "climb", "fizzy", "happy", "cling"]);
    let mut state = ConstraintState::new();
    state.fold(&w("clasp"), &[Correct, Correct, Absent, Absent, Absent]);
    let kept = filter_candidates(&list, &state);
    assert_eq!(kept, words(&["climb", "cling"]));
    for word in list.iter() {
        assert_eq!(kept.contains(word), word_fits(word, &state));
    }
}

#[test]
fn true_feedback_is_enumerated() {
    let mut state = ConstraintState::new();
    state.fold(&w("stone"), &[Absent, Absent, Absent, Absent, Misplaced]);
    let target = w("cream");
    let guess = w("buyer");
    let patterns = get_all_possiblities(&state, &guess);
    assert!(patterns.contains(&letterwise(&guess, &target)));
}

#[test]
fn empty_state_gives_thirty_two_patterns() {
    let state = ConstraintState::new();
    let patterns = get_all_possiblities(&state, &w("crane"));
    assert_eq!(patterns.len(), 32);
    assert_eq!(patterns[0], [Absent; 5]);
    assert_eq!(patterns[1], [Absent, Absent, Absent, Absent, Misplaced]);
    assert_eq!(patterns[31], [Misplaced; 5]);
}

#[test]
fn known_and_excluded_positions_fix_their_symbols() {
    let mut state = ConstraintState::new();
    state.fold(&w("crane"), &[Correct, Correct, Correct, Correct, Absent]);
    let patterns = get_all_possiblities(&state, &w("crank"));
    assert_eq!(
        patterns,
        vec![[Correct, Correct, Correct, Correct, Absent], [Correct, Correct, Correct, Correct, Misplaced]]
    );
    let mut state = ConstraintState::new();
    state.fold(&w("shaft"), &[Absent, Misplaced, Correct, Absent, Absent]);
    // 'h' misplaced at 1, 'a' known at 2, 's' excluded.
    let patterns = get_all_possiblities(&state, &w("shame"));
    assert_eq!(
        patterns,
        vec![
            [Absent, Misplaced, Correct, Absent, Absent],
            [Absent, Misplaced, Correct, Absent, Misplaced],
            [Absent, Misplaced, Correct, Misplaced, Absent],
            [Absent, Misplaced, Correct, Misplaced, Misplaced],
        ]
    );
    let mut state = ConstraintState::new();
    state.fold(&w("hxxxx"), &[Misplaced, Absent, Absent, Absent, Absent]);
    state.fold(&w("xxxxx"), &[Correct, Absent, Absent, Absent, Absent]);
    // known 'x' at 0, 'h' excluded at 0: a guessed 'h' there can only be absent.
    let patterns = get_all_possiblities(&state, &w("hxxxx"));
    assert_eq!(patterns.len(), 16);
    assert!(patterns.iter().all(|p| p[0] == Absent));
}

#[test]
fn parse_feedback_accepts_both_cases() {
    assert_eq!(parse_feedback("XyZzx"), Ok([Absent, Misplaced, Correct, Correct, Absent]));
    assert_eq!(parse_feedback("XYZX"), Err(SolverError::MalformedFeedback));
    assert_eq!(parse_feedback("XYZXYZ"), Err(SolverError::MalformedFeedback));
    assert_eq!(parse_feedback("XGZXY"), Err(SolverError::MalformedFeedback));
}

#[test]
fn parse_word_lowers_and_checks_length() {
    assert_eq!(parse_word("CrAnE"), Ok(['c', 'r', 'a', 'n', 'e']));
    assert_eq!(parse_word("abc"), Err(SolverError::WordLengthMismatch));
    assert_eq!(parse_word("abcdef"), Err(SolverError::WordLengthMismatch));
}

#[test]
fn round_folds_then_filters() {
    let mut state = ConstraintState::new();
    let list = words(&["crane", "stone", "climb", "cling"]);
    let r = filter_wordlist(&mut state, &w("clasp"), "zzxxx", &list);
    assert_eq!(r, Ok(words(&["climb", "cling"])));
    assert_eq!(state.known, [Some('c'), Some('l'), None, None, None]);
}

#[test]
fn clear_forgets_everything() {
    let mut state = ConstraintState::new();
    state.fold(&w("crane"), &[Correct, Misplaced, Absent, Absent, Absent]);
    state.clear();
    assert_eq!(snapshot(&ConstraintState::new()), snapshot(&state));
}

#[test]
fn absent_duplicate_of_known_letter_is_not_excluded() {
    let mut state = ConstraintState::new();
    state.fold(&w("crane"), &[Absent, Absent, Absent, Absent, Correct]);
    // A second 'e' reported absent does not exclude the known 'e'.
    state.fold(&w("eerie"), &[Absent, Absent, Absent, Absent, Correct]);
    assert!(!state.excluded_globally.contains('e'));
    assert_eq!(sorted(&state.excluded_globally), vec!['a', 'c', 'i', 'n', 'r']);
}
