use vstd::prelude::*;

use crate::state::{
    fold_view, is_feedback_text, parsed_feedback, ConstraintState, SolverError, StateView, Word,
};

verus! {

/// Whether letter `i` of `w` agrees with what the state knows of position `i`.
pub open spec fn fits_at(w: Seq<char>, s: StateView, i: int) -> bool {
    &&& (s.known[i] is None || s.known[i] == Some(w[i]))
    &&& !s.excluded.contains(w[i])
    &&& !s.excluded_at[i].contains(w[i])
}

/// Whether `w` meets every constraint of `s`.
pub open spec fn satisfies(w: Seq<char>, s: StateView) -> bool {
    &&& forall|i: int| 0 <= i < 5 ==> #[trigger] fits_at(w, s, i)
    &&& forall|c: char| s.present.contains(c) ==> #[trigger] w.contains(c)
}

/// The words of `ws` that meet `s`, in their order.
pub open spec fn survivors(ws: Seq<Word>, s: StateView) -> Seq<Word>
    decreases ws.len(),
{
    if ws.len() == 0 {
        Seq::empty()
    } else {
        let rest = survivors(ws.drop_last(), s);
        if satisfies(ws.last()@, s) {
            rest.push(ws.last())
        } else {
            rest
        }
    }
}

/// A word survives exactly when it is in the list and meets the state.
pub proof fn lemma_survivors_contains(ws: Seq<Word>, s: StateView, w: Word)
    ensures
        survivors(ws, s).contains(w) <==> (ws.contains(w) && satisfies(w@, s)),
    decreases ws.len(),
{
    if ws.len() > 0 {
        let init = ws.drop_last();
        lemma_survivors_contains(init, s, w);
        assert(ws =~= init.push(ws.last()));
        let rest = survivors(init, s);
        if rest.contains(w) {
            let k = choose|k: int| 0 <= k < rest.len() && rest[k] == w;
            if satisfies(ws.last()@, s) {
                assert(rest.push(ws.last())[k] == w);
            }
        }
        if init.contains(w) {
            let k = choose|k: int| 0 <= k < init.len() && init[k] == w;
            assert(ws[k] == w);
        }
        if ws.contains(w) {
            let k = choose|k: int| 0 <= k < ws.len() && ws[k] == w;
            if k < init.len() {
                assert(init[k] == w);
            }
        }
        if satisfies(ws.last()@, s) {
            let r = rest.push(ws.last());
            assert(r[rest.len() as int] == ws.last());
            if r.contains(w) {
                let k = choose|k: int| 0 <= k < r.len() && r[k] == w;
                if k < rest.len() {
                    assert(rest[k] == w);
                }
            }
        }
    }
}

/// Every survivor meets the state.
pub proof fn lemma_survivors_satisfy(ws: Seq<Word>, s: StateView)
    ensures
        forall|k: int| 0 <= k < survivors(ws, s).len() ==> satisfies(#[trigger] survivors(ws, s)[k]@, s),
        survivors(ws, s).len() <= ws.len(),
    decreases ws.len(),
{
    if ws.len() > 0 {
        lemma_survivors_satisfy(ws.drop_last(), s);
    }
}

/// Whether `word` meets every constraint of `state`.
pub fn word_fits(word: &Word, state: &ConstraintState) -> (r: bool)
    ensures
        r == satisfies(word@, state@),
{
    let mut i: usize = 0;
    while i < 5
        invariant
            i <= 5,
            forall|j: int| 0 <= j < i ==> #[trigger] fits_at(word@, state@, j),
        decreases 5 - i,
    {
        let letter = word[i];
        match state.known[i] {
            Some(k) => {
                if k != letter {
                    assert(!fits_at(word@, state@, i as int));
                    return false;
                }
            },
            None => {},
        }
        if state.excluded_globally.contains(letter) {
            assert(!fits_at(word@, state@, i as int));
            return false;
        }
        if state.excluded_at_position[i].contains(letter) {
            assert(!fits_at(word@, state@, i as int));
            return false;
        }
        i += 1;
    }
    let required = state.present_somewhere.to_vec();
    let mut k: usize = 0;
    while k < required.len()
        invariant
            k <= required.len(),
            forall|c: char| required@.contains(c) <==> state@.present.contains(c),
            forall|j: int| 0 <= j < k ==> word@.contains(#[trigger] required@[j]),
        decreases required.len() - k,
    {
        if !word_has_letter(word, required[k]) {
            assert(required@.contains(required@[k as int]));
            assert(state@.present.contains(required@[k as int]));
            assert(!word@.contains(required@[k as int]));
            return false;
        }
        k += 1;
    }
    assert forall|c: char| state@.present.contains(c) implies word@.contains(c) by {
        assert(required@.contains(c));
        let j = choose|j: int| 0 <= j < required@.len() && required@[j] == c;
    }
    true
}

/// Whether `c` occurs in `word`.
pub fn word_has_letter(word: &Word, c: char) -> (r: bool)
    ensures
        r == word@.contains(c),
{
    let mut i: usize = 0;
    while i < 5
        invariant
            i <= 5,
            forall|j: int| 0 <= j < i ==> word@[j] != c,
        decreases 5 - i,
    {
        if word[i] == c {
            assert(word@[i as int] == c);
            return true;
        }
        i += 1;
    }
    false
}

/// The candidates that meet every constraint of `state`, in their order.
/// A word is kept exactly when it meets the state; the state is not changed.
pub fn filter_candidates(candidates: &Vec<Word>, state: &ConstraintState) -> (r: Vec<Word>)
    ensures
        r@ == survivors(candidates@, state@),
        forall|k: int| 0 <= k < r.len() ==> satisfies(#[trigger] r@[k]@, state@),
        forall|k: int|
            0 <= k < candidates.len() ==> (r@.contains(#[trigger] candidates@[k]) <==> satisfies(
                candidates@[k]@,
                state@,
            )),
{
    let mut out: Vec<Word> = Vec::new();
    let mut i: usize = 0;
    while i < candidates.len()
        invariant
            i <= candidates.len(),
            out@ == survivors(candidates@.subrange(0, i as int), state@),
        decreases candidates.len() - i,
    {
        let w = candidates[i];
        assert(candidates@.subrange(0, i + 1).drop_last() =~= candidates@.subrange(0, i as int));
        if word_fits(&w, state) {
            out.push(w);
        }
        i += 1;
    }
    assert(candidates@.subrange(0, candidates@.len() as int) =~= candidates@);
    proof {
        lemma_survivors_satisfy(candidates@, state@);
        assert forall|k: int| 0 <= k < candidates.len() implies (out@.contains(
            #[trigger] candidates@[k],
        ) <==> satisfies(candidates@[k]@, state@)) by {
            lemma_survivors_contains(candidates@, state@, candidates@[k]);
        }
    }
    out
}

/// One round: folds the feedback text `result` for the word `tried` into
/// `state`, then keeps the words of `wordlist` that meet the new state. A
/// malformed text leaves the state unchanged; constraints that leave no word
/// are reported as such, with the state folded.
pub fn filter_wordlist(
    state: &mut ConstraintState,
    tried: &Word,
    result: &str,
    wordlist: &Vec<Word>,
) -> (r: Result<Vec<Word>, SolverError>)
    ensures
        !is_feedback_text(result@) ==> r == Err::<Vec<Word>, SolverError>(
            SolverError::MalformedFeedback,
        ) && final(state)@ == old(state)@,
        is_feedback_text(result@) ==> final(state)@ == fold_view(
            old(state)@,
            tried@,
            parsed_feedback(result@),
        ),
        is_feedback_text(result@) ==> (r is Ok <==> survivors(wordlist@, final(state)@).len() > 0),
        r matches Ok(ws) ==> ws@ == survivors(wordlist@, final(state)@),
        r matches Err(e) ==> (e == SolverError::EmptyCandidateSet <==> is_feedback_text(result@)),
{
    match state.fold_feedback(tried, result) {
        Ok(()) => {},
        Err(e) => {
            return Err(e);
        },
    }
    let kept = filter_candidates(wordlist, state);
    if kept.len() == 0 {
        Err(SolverError::EmptyCandidateSet)
    } else {
        Ok(kept)
    }
}

} // verus!
