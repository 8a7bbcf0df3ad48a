use std::cmp::Ordering;

use wordle_solver::{
    alphabet_letters, choose_guess, expected_remaining, parse_word, pick_by_expected_remaining,
    ConstraintState, FeedbackSymbol, FrequencyRanker, SolverError, Word,
};

fn w(s: &str) -> Word {
    parse_word(s).unwrap()
}

fn words(list: &[&str]) -> Vec<Word> {
    list.iter().map(|s| w(s)).collect()
}

const CORPUS: &str = "apple\nmango\ngrape\n";

#[test]
fn ranks_follow_frequency_then_first_sighting() {
    let ranker = FrequencyRanker::from_corpus(CORPUS);
    let expected = "apeglmnorbcdfhijkqstuvwxyz";
    for (i, c) in expected.chars().enumerate() {
        assert_eq!(ranker.rank(c), i, "letter {}", c);
    }
    assert_eq!(ranker.rank('1'), 26);
}

#[test]
fn ranking_ignores_case_and_is_repeatable() {
    let a = FrequencyRanker::from_corpus(CORPUS);
    let b = FrequencyRanker::from_corpus("APPLE\nMango\ngrapE\n");
    let c = FrequencyRanker::from_corpus(CORPUS);
    for letter in alphabet_letters().iter() {
        assert_eq!(a.rank(*letter), b.rank(*letter));
        assert_eq!(a.rank(*letter), c.rank(*letter));
    }
}

#[test]
fn ranks_are_a_permutation_of_the_alphabet() {
    let ranker = FrequencyRanker::from_corpus("the quick brown fox\njumps over the lazy dog\n");
    let mut ranks: Vec<usize> = alphabet_letters().iter().map(|c| ranker.rank(*c)).collect();
    ranks.sort();
    assert_eq!(ranks, (0..26).collect::<Vec<usize>>());
}

#[test]
fn empty_corpus_ranks_alphabetically() {
    let ranker = FrequencyRanker::from_corpus("");
    assert_eq!(ranker.rank('a'), 0);
    assert_eq!(ranker.rank('z'), 25);
}

#[test]
fn frequency_keys_count_distinct_letters_and_rank_sums() {
    let ranker = FrequencyRanker::from_corpus(CORPUS);
    assert_eq!(ranker.frequency_key(&w("apple")), (4, 8));
    assert_eq!(ranker.frequency_key(&w("mango")), (5, 21));
    assert_eq!(ranker.frequency_key(&w("grape")), (5, 14));
}

#[test]
fn compare_prefers_distinct_letters_then_common_ones() {
    let ranker = FrequencyRanker::from_corpus(CORPUS);
    assert_eq!(ranker.compare_by_frequency(&w("grape"), &w("mango")), Ordering::Less);
    assert_eq!(ranker.compare_by_frequency(&w("apple"), &w("mango")), Ordering::Greater);
    assert_eq!(ranker.compare_by_frequency(&w("grape"), &w("pager")), Ordering::Equal);
}

#[test]
fn pick_by_frequency_takes_the_best_word() {
    let ranker = FrequencyRanker::from_corpus(CORPUS);
    assert_eq!(ranker.pick_by_frequency(&words(&["apple", "mango", "grape"])), Some(2));
    assert_eq!(ranker.pick_by_frequency(&words(&["grape", "pager"])), Some(0));
    assert_eq!(ranker.pick_by_frequency(&Vec::new()), None);
}

fn stone_state() -> ConstraintState {
    let mut state = ConstraintState::new();
    state.fold(&w("stone"), &[FeedbackSymbol::Absent; 5]);
    state
}

#[test]
fn expected_remaining_sums_over_patterns() {
    let state = stone_state();
    let candidates = words(&["crack", "champ", "chalk", "brick"]);
    assert_eq!(expected_remaining(&state, &w("crack"), &candidates), (0, 32));
    assert_eq!(expected_remaining(&state, &w("champ"), &candidates), (1, 32));
    assert_eq!(expected_remaining(&state, &w("mulch"), &candidates), (2, 32));
    let mut narrow = ConstraintState::new();
    narrow.fold(&w("crane"), &[
        FeedbackSymbol::Correct,
        FeedbackSymbol::Correct,
        FeedbackSymbol::Correct,
        FeedbackSymbol::Correct,
        FeedbackSymbol::Absent,
    ]);
    assert_eq!(expected_remaining(&narrow, &w("crank"), &words(&["crank", "crans"])), (1, 2));
}

#[test]
fn expected_remaining_picks_least_average() {
    let state = stone_state();
    let candidates = words(&["crack", "champ", "chalk", "brick"]);
    let pool = words(&["mulch", "champ", "chalk"]);
    assert_eq!(pick_by_expected_remaining(&state, &pool, &candidates), 2);
    let pool = words(&["crack", "champ", "chalk", "brick", "mulch"]);
    assert_eq!(pick_by_expected_remaining(&state, &pool, &candidates), 0);
    assert_eq!(choose_guess(&state, &words(&["mulch", "champ", "chalk"]), &candidates), Ok(w("chalk")));
}

#[test]
fn choose_guess_handles_small_candidate_sets() {
    let state = stone_state();
    assert_eq!(
        choose_guess(&state, &words(&["crack"]), &Vec::new()),
        Err(SolverError::EmptyCandidateSet)
    );
    assert_eq!(choose_guess(&state, &words(&["crack", "mulch"]), &words(&["brick"])), Ok(w("brick")));
    assert_eq!(choose_guess(&state, &Vec::new(), &words(&["brick", "chalk"])), Ok(w("brick")));
}

#[test]
fn order_by_frequency_sorts_by_both_keys() {
    let ranker = FrequencyRanker::from_corpus(CORPUS);
    let ordered = ranker.order_by_frequency(&words(&["apple", "mango", "grape", "pager"]));
    assert_eq!(ordered, words(&["grape", "pager", "mango", "apple"]));
    assert!(ranker.order_by_frequency(&Vec::new()).is_empty());
}
