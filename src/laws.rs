use vstd::prelude::*;

use crate::filter::{fits_at, lemma_survivors_contains, satisfies, survivors};
use crate::state::{fold_view, known_letters, state_wf, FeedbackSymbol, StateView, Word};

verus! {

/// Whether a round of feedback agrees with what the state already holds: no
/// position marked correct contradicts a known letter, and no letter marked
/// misplaced or correct was excluded before.
pub open spec fn agrees_with(s: StateView, guess: Seq<char>, feedback: Seq<FeedbackSymbol>) -> bool {
    forall|i: int|
        0 <= i < 5 ==> {
            &&& (#[trigger] feedback[i] == FeedbackSymbol::Correct ==> (s.known[i] is None
                || s.known[i] == Some(guess[i])))
            &&& (feedback[i] != FeedbackSymbol::Absent ==> !s.excluded.contains(guess[i]))
        }
}

/// Folding the same guess and feedback a second time leaves the state as the
/// first fold made it.
pub proof fn lemma_fold_idempotent(s: StateView, guess: Seq<char>, feedback: Seq<FeedbackSymbol>)
    requires
        s.known.len() == 5,
        s.excluded_at.len() == 5,
        guess.len() == 5,
        feedback.len() == 5,
    ensures
        fold_view(fold_view(s, guess, feedback), guess, feedback) == fold_view(s, guess, feedback),
{
    let once = fold_view(s, guess, feedback);
    let twice = fold_view(once, guess, feedback);
    assert(twice.known =~= once.known);
    assert(twice.present =~= once.present);
    assert(twice.excluded =~= once.excluded);
    assert forall|i: int| 0 <= i < 5 implies #[trigger] twice.excluded_at[i] == once.excluded_at[i] by {
        assert(twice.excluded_at[i] =~= once.excluded_at[i]);
    }
    assert(twice.excluded_at =~= once.excluded_at);
}

/// Folding feedback keeps a state well formed.
pub proof fn lemma_fold_keeps_wf(s: StateView, guess: Seq<char>, feedback: Seq<FeedbackSymbol>)
    requires
        state_wf(s),
        guess.len() == 5,
        feedback.len() == 5,
    ensures
        state_wf(fold_view(s, guess, feedback)),
{
}

/// A word that meets the state after a fold met it before, when the fold's
/// feedback agrees with the state: folding only ever narrows the candidates.
pub proof fn lemma_fold_narrows(
    ws: Seq<Word>,
    s: StateView,
    guess: Seq<char>,
    feedback: Seq<FeedbackSymbol>,
)
    requires
        state_wf(s),
        guess.len() == 5,
        feedback.len() == 5,
        agrees_with(s, guess, feedback),
    ensures
        forall|w: Word|
            #[trigger] survivors(ws, fold_view(s, guess, feedback)).contains(w) ==> survivors(
                ws,
                s,
            ).contains(w),
{
    let t = fold_view(s, guess, feedback);
    assert forall|w: Word| #[trigger] survivors(ws, t).contains(w) implies survivors(ws, s).contains(w) by {
        lemma_survivors_contains(ws, t, w);
        lemma_survivors_contains(ws, s, w);
        assert forall|i: int| 0 <= i < 5 implies #[trigger] fits_at(w@, s, i) by {
            assert(fits_at(w@, t, i));
            let c = w@[i];
            assert(feedback[i] == FeedbackSymbol::Correct || t.known[i] == s.known[i]);
            if s.excluded.contains(c) {
                assert(t.present.contains(c) || known_letters(t.known).contains(c));
                if known_letters(t.known).contains(c) {
                    let j = choose|j: int| 0 <= j < t.known.len() && t.known[j] == Some(c);
                    if feedback[j] != FeedbackSymbol::Correct {
                        assert(known_letters(s.known).contains(c));
                    }
                }
            }
        }
    }
}

} // verus!
