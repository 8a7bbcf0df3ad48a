use vstd::prelude::*;

use crate::filter::{filter_candidates, lemma_survivors_satisfy, survivors};
use crate::patterns::{array_views, extend, get_all_possiblities, options, patterns_upto};
use crate::state::{fold_view, ConstraintState, FeedbackSymbol, SolverError, StateView, Word};

verus! {

/// The number of candidates left after folding each pattern of `ps` for
/// `guess`, summed over `ps`.
pub open spec fn remaining_total(
    s: StateView,
    guess: Seq<char>,
    candidates: Seq<Word>,
    ps: Seq<Seq<FeedbackSymbol>>,
) -> int
    decreases ps.len(),
{
    if ps.len() == 0 {
        0
    } else {
        remaining_total(s, guess, candidates, ps.drop_last()) + survivors(
            candidates,
            fold_view(s, guess, ps.last()),
        ).len()
    }
}

/// The candidates left over all reachable patterns of `guess`, summed.
pub open spec fn score_total(s: StateView, guess: Seq<char>, candidates: Seq<Word>) -> int {
    remaining_total(s, guess, candidates, patterns_upto(s, guess, 5))
}

/// The number of reachable patterns of `guess`.
pub open spec fn score_count(s: StateView, guess: Seq<char>) -> int {
    patterns_upto(s, guess, 5).len() as int
}

/// Whether `a`'s average of remaining candidates is below `b`'s.
pub open spec fn lower_average(s: StateView, candidates: Seq<Word>, a: Seq<char>, b: Seq<char>) -> bool {
    score_total(s, a, candidates) * score_count(s, b) < score_total(s, b, candidates) * score_count(
        s,
        a,
    )
}

/// Whether `pool[k]` has the least average of remaining candidates in `pool`,
/// and no earlier word of `pool` has as little.
pub open spec fn is_best_index(s: StateView, pool: Seq<Word>, candidates: Seq<Word>, k: int) -> bool {
    &&& 0 <= k < pool.len()
    &&& forall|j: int|
        0 <= j < pool.len() ==> !#[trigger] lower_average(s, candidates, pool[j]@, pool[k]@)
    &&& forall|j: int|
        0 <= j < k ==> #[trigger] lower_average(s, candidates, pool[k]@, pool[j]@)
}

/// The expected-remaining-candidates score of `guess`: over the patterns it
/// can still receive, the sum of the candidates each would leave, and the
/// number of patterns. The average is their quotient; every pattern counts
/// the same, however many candidates would produce it.
pub fn expected_remaining(state: &ConstraintState, guess: &Word, candidates: &Vec<Word>) -> (r: (
    u128,
    usize,
))
    ensures
        r.0 == score_total(state@, guess@, candidates@),
        r.1 == score_count(state@, guess@),
        1 <= r.1 <= 32,
        r.0 <= 32 * candidates.len(),
{
    let patterns = get_all_possiblities(state, guess);
    let ghost ps = array_views(patterns@);
    let mut total: u128 = 0;
    let mut k: usize = 0;
    while k < patterns.len()
        invariant
            k <= patterns.len(),
            patterns.len() <= 32,
            ps == array_views(patterns@),
            total == remaining_total(state@, guess@, candidates@, ps.subrange(0, k as int)),
            total <= k * candidates.len(),
        decreases patterns.len() - k,
    {
        let mut trial = state.duplicate();
        trial.fold(guess, &patterns[k]);
        let kept = filter_candidates(candidates, &trial);
        proof {
            lemma_survivors_satisfy(candidates@, trial@);
            assert(ps.subrange(0, k + 1).drop_last() =~= ps.subrange(0, k as int));
            assert(ps[k as int] == patterns@[k as int]@);
            assert(total + kept.len() <= (k + 1) * candidates.len()) by (nonlinear_arith)
                requires
                    total <= k * candidates.len(),
                    kept.len() <= candidates.len(),
            ;
            assert((k + 1) * candidates.len() <= 32 * candidates.len()) by (nonlinear_arith)
                requires
                    k + 1 <= 32,
            ;
        }
        total = total + kept.len() as u128;
        k += 1;
    }
    assert(ps.subrange(0, patterns.len() as int) =~= ps);
    assert(patterns.len() * candidates.len() <= 32 * candidates.len()) by (nonlinear_arith)
        requires
            patterns.len() <= 32,
    ;
    (total, patterns.len())
}

proof fn lemma_remaining_total_nonneg(
    s: StateView,
    guess: Seq<char>,
    candidates: Seq<Word>,
    ps: Seq<Seq<FeedbackSymbol>>,
)
    ensures
        remaining_total(s, guess, candidates, ps) >= 0,
    decreases ps.len(),
{
    if ps.len() > 0 {
        lemma_remaining_total_nonneg(s, guess, candidates, ps.drop_last());
    }
}

proof fn lemma_extend_len(ps: Seq<Seq<FeedbackSymbol>>, opts: Seq<FeedbackSymbol>)
    ensures
        extend(ps, opts).len() == ps.len() * opts.len(),
    decreases ps.len(),
{
    if ps.len() > 0 {
        lemma_extend_len(ps.drop_last(), opts);
        assert((ps.len() - 1) * opts.len() + opts.len() == ps.len() * opts.len()) by (nonlinear_arith);
    }
}

proof fn lemma_patterns_nonempty(s: StateView, guess: Seq<char>, k: int)
    ensures
        patterns_upto(s, guess, k).len() >= 1,
    decreases k,
{
    if k > 0 {
        lemma_patterns_nonempty(s, guess, k - 1);
        let ps = patterns_upto(s, guess, k - 1);
        let opts = options(s, guess, k - 1);
        lemma_extend_len(ps, opts);
        assert(opts.len() >= 1);
        assert(ps.len() * opts.len() >= 1) by (nonlinear_arith)
            requires
                ps.len() >= 1,
                opts.len() >= 1,
        ;
    }
}

proof fn lemma_ratio_step(at: int, an: int, bt: int, bn: int, ct: int, cn: int)
    requires
        an > 0,
        bn > 0,
        cn > 0,
        at >= 0,
        bt >= 0,
        ct >= 0,
        at * bn < bt * an,
        bt * cn <= ct * bn,
    ensures
        at * cn < ct * an,
{
    assert(at * bn * cn < bt * an * cn) by (nonlinear_arith)
        requires
            at * bn < bt * an,
            cn > 0,
    ;
    assert(bt * cn * an <= ct * bn * an) by (nonlinear_arith)
        requires
            bt * cn <= ct * bn,
            an > 0,
    ;
    assert(at * cn * bn < ct * an * bn) by (nonlinear_arith)
        requires
            at * bn * cn < bt * an * cn,
            bt * cn * an <= ct * bn * an,
    ;
    assert(at * cn < ct * an) by (nonlinear_arith)
        requires
            at * cn * bn < ct * an * bn,
            bn > 0,
    ;
}

/// The index of the word of `pool` with the least average of remaining
/// candidates; the first such word where several tie.
pub fn pick_by_expected_remaining(
    state: &ConstraintState,
    pool: &Vec<Word>,
    candidates: &Vec<Word>,
) -> (r: usize)
    requires
        pool.len() > 0,
    ensures
        is_best_index(state@, pool@, candidates@, r as int),
{
    proof {
        assert forall|j: int| 0 <= j < pool.len() implies score_count(state@, #[trigger] pool@[j]@) >= 1
            && score_total(state@, pool@[j]@, candidates@) >= 0 by {
            lemma_patterns_nonempty(state@, pool@[j]@, 5);
            lemma_remaining_total_nonneg(state@, pool@[j]@, candidates@, patterns_upto(state@, pool@[j]@, 5));
        }
    }
    let first = expected_remaining(state, &pool[0], candidates);
    let mut best: usize = 0;
    let mut best_total: u128 = first.0;
    let mut best_count: usize = first.1;
    let mut i: usize = 1;
    while i < pool.len()
        invariant
            1 <= i <= pool.len(),
            best < i,
            best_total == score_total(state@, pool@[best as int]@, candidates@),
            best_count == score_count(state@, pool@[best as int]@),
            1 <= best_count <= 32,
            best_total <= 32 * candidates.len(),
            forall|j: int|
                0 <= j < i ==> !#[trigger] lower_average(
                    state@,
                    candidates@,
                    pool@[j]@,
                    pool@[best as int]@,
                ),
            forall|j: int|
                0 <= j < best ==> #[trigger] lower_average(
                    state@,
                    candidates@,
                    pool@[best as int]@,
                    pool@[j]@,
                ),
            forall|j: int|
                0 <= j < pool.len() ==> score_count(state@, #[trigger] pool@[j]@) >= 1
                    && score_total(state@, pool@[j]@, candidates@) >= 0,
        decreases pool.len() - i,
    {
        let here = expected_remaining(state, &pool[i], candidates);
        assert(here.0 * (best_count as u128) <= 32 * candidates.len() * 32) by (nonlinear_arith)
            requires
                here.0 <= 32 * candidates.len(),
                best_count <= 32,
        ;
        assert(best_total * (here.1 as u128) <= 32 * candidates.len() * 32) by (nonlinear_arith)
            requires
                best_total <= 32 * candidates.len(),
                here.1 <= 32,
        ;
        if here.0 * (best_count as u128) < best_total * (here.1 as u128) {
            proof {
                let hw = pool@[i as int]@;
                let bw = pool@[best as int]@;
                assert forall|j: int| 0 <= j < i + 1 implies !#[trigger] lower_average(
                    state@,
                    candidates@,
                    pool@[j]@,
                    hw,
                ) by {
                    if j < i {
                        let jw = pool@[j]@;
                        assert(!lower_average(state@, candidates@, jw, bw));
                        if lower_average(state@, candidates@, jw, hw) {
                            lemma_ratio_step(
                                score_total(state@, jw, candidates@),
                                score_count(state@, jw),
                                score_total(state@, hw, candidates@),
                                score_count(state@, hw),
                                score_total(state@, bw, candidates@),
                                score_count(state@, bw),
                            );
                        }
                    }
                }
                assert forall|j: int| 0 <= j < i implies #[trigger] lower_average(
                    state@,
                    candidates@,
                    hw,
                    pool@[j]@,
                ) by {
                    let jw = pool@[j]@;
                    assert(!lower_average(state@, candidates@, jw, bw));
                    lemma_ratio_step(
                        score_total(state@, hw, candidates@),
                        score_count(state@, hw),
                        score_total(state@, bw, candidates@),
                        score_count(state@, bw),
                        score_total(state@, jw, candidates@),
                        score_count(state@, jw),
                    );
                }
            }
            best = i;
            best_total = here.0;
            best_count = here.1;
        }
        i += 1;
    }
    best
}

/// The next guess. No candidate left is an error; a single candidate is
/// returned as it is; otherwise the word of `pool` with the least average of
/// remaining candidates, or the first candidate where `pool` is empty. The
/// first round is scored like any other: there is no fixed opening word.
pub fn choose_guess(state: &ConstraintState, pool: &Vec<Word>, candidates: &Vec<Word>) -> (r: Result<
    Word,
    SolverError,
>)
    ensures
        r is Err <==> candidates.len() == 0,
        r matches Err(e) ==> e == SolverError::EmptyCandidateSet,
        candidates.len() == 1 || (candidates.len() > 1 && pool.len() == 0) ==> r == Ok::<
            Word,
            SolverError,
        >(candidates@[0]),
        candidates.len() > 1 && pool.len() > 0 ==> exists|k: int|
            is_best_index(state@, pool@, candidates@, k) && r == Ok::<Word, SolverError>(pool@[k]),
{
    if candidates.len() == 0 {
        return Err(SolverError::EmptyCandidateSet);
    }
    if candidates.len() == 1 || pool.len() == 0 {
        return Ok(candidates[0]);
    }
    let k = pick_by_expected_remaining(state, pool, candidates);
    Ok(pool[k])
}

} // verus!
