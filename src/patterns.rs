use vstd::prelude::*;
use vstd::arithmetic::power2::pow2;

use crate::state::{ConstraintState, FeedbackSymbol, StateView, Word};

verus! {

/// The symbols that position `i` of `guess` can still receive, judged on that
/// position alone.
pub open spec fn options(s: StateView, guess: Seq<char>, i: int) -> Seq<FeedbackSymbol> {
    match s.known[i] {
        Some(l) => if guess[i] == l {
            seq![FeedbackSymbol::Correct]
        } else if s.excluded_at[i].contains(guess[i]) {
            seq![FeedbackSymbol::Absent]
        } else {
            seq![FeedbackSymbol::Absent, FeedbackSymbol::Misplaced]
        },
        None => if s.excluded.contains(guess[i]) {
            seq![FeedbackSymbol::Absent]
        } else if s.present.contains(guess[i]) {
            seq![FeedbackSymbol::Misplaced]
        } else {
            seq![FeedbackSymbol::Absent, FeedbackSymbol::Misplaced]
        },
    }
}

/// Each prefix of `ps`, in order, extended by each symbol of `opts`, in order.
pub open spec fn extend(ps: Seq<Seq<FeedbackSymbol>>, opts: Seq<FeedbackSymbol>) -> Seq<
    Seq<FeedbackSymbol>,
>
    decreases ps.len(),
{
    if ps.len() == 0 {
        Seq::empty()
    } else {
        extend(ps.drop_last(), opts) + opts.map_values(|a: FeedbackSymbol| ps.last().push(a))
    }
}

/// The reachable patterns of the first `k` positions of `guess`: the
/// cartesian product of the positions' options, earlier positions varying
/// slowest.
pub open spec fn patterns_upto(s: StateView, guess: Seq<char>, k: int) -> Seq<Seq<FeedbackSymbol>>
    decreases k,
{
    if k <= 0 {
        seq![Seq::empty()]
    } else {
        extend(patterns_upto(s, guess, k - 1), options(s, guess, k - 1))
    }
}

/// The feedback that `guess` receives against `target` when each position is
/// judged on its own: correct where the letters agree, misplaced where the
/// guessed letter occurs elsewhere in the target, absent otherwise.
pub open spec fn letterwise_feedback(guess: Seq<char>, target: Seq<char>) -> Seq<FeedbackSymbol> {
    Seq::new(
        5,
        |i: int|
            if guess[i] == target[i] {
                FeedbackSymbol::Correct
            } else if target.contains(guess[i]) {
                FeedbackSymbol::Misplaced
            } else {
                FeedbackSymbol::Absent
            },
    )
}

pub open spec fn views(v: Seq<Vec<FeedbackSymbol>>) -> Seq<Seq<FeedbackSymbol>> {
    v.map_values(|p: Vec<FeedbackSymbol>| p@)
}

pub open spec fn array_views(v: Seq<[FeedbackSymbol; 5]>) -> Seq<Seq<FeedbackSymbol>> {
    v.map_values(|p: [FeedbackSymbol; 5]| p@)
}

/// A pattern extends `ps` by `opts` exactly when it is a prefix of `ps`
/// followed by a symbol of `opts`.
pub proof fn lemma_extend_contains(
    ps: Seq<Seq<FeedbackSymbol>>,
    opts: Seq<FeedbackSymbol>,
    q: Seq<FeedbackSymbol>,
)
    ensures
        extend(ps, opts).contains(q) <==> (q.len() >= 1 && ps.contains(q.drop_last())
            && opts.contains(q.last())),
    decreases ps.len(),
{
    if ps.len() > 0 {
        let init = ps.drop_last();
        let tail = opts.map_values(|a: FeedbackSymbol| ps.last().push(a));
        lemma_extend_contains(init, opts, q);
        let e = extend(ps, opts);
        let e0 = extend(init, opts);
        assert(e == e0 + tail);
        if e.contains(q) {
            let k = choose|k: int| 0 <= k < e.len() && e[k] == q;
            if k < e0.len() {
                assert(e0[k] == q);
                let j = choose|j: int| 0 <= j < init.len() && init[j] == q.drop_last();
                assert(ps[j] == q.drop_last());
            } else {
                let m = k - e0.len();
                assert(tail[m] == q);
                assert(q.drop_last() =~= ps.last());
                assert(ps[ps.len() - 1] == q.drop_last());
                assert(opts[m] == q.last());
            }
        }
        if q.len() >= 1 && ps.contains(q.drop_last()) && opts.contains(q.last()) {
            let j = choose|j: int| 0 <= j < ps.len() && ps[j] == q.drop_last();
            let m = choose|m: int| 0 <= m < opts.len() && opts[m] == q.last();
            assert(q =~= q.drop_last().push(q.last()));
            if j < init.len() {
                assert(init[j] == q.drop_last());
                let k = choose|k: int| 0 <= k < e0.len() && e0[k] == q;
                assert(e[k] == q);
            } else {
                assert(tail[m] == q);
                assert(e[e0.len() + m] == q);
            }
        }
    }
}

/// The reachable patterns of the first `k` positions are exactly the
/// sequences of length `k` whose every symbol is an option of its position.
pub proof fn lemma_patterns_contains(s: StateView, guess: Seq<char>, k: int, p: Seq<FeedbackSymbol>)
    requires
        k >= 0,
    ensures
        patterns_upto(s, guess, k).contains(p) <==> (p.len() == k && forall|i: int|
            0 <= i < k ==> #[trigger] options(s, guess, i).contains(p[i])),
    decreases k,
{
    if k == 0 {
        if p.len() == 0 {
            assert(p =~= Seq::<FeedbackSymbol>::empty());
            assert(patterns_upto(s, guess, k)[0] == p);
        }
    } else {
        lemma_extend_contains(patterns_upto(s, guess, k - 1), options(s, guess, k - 1), p);
        if p.len() >= 1 {
            lemma_patterns_contains(s, guess, k - 1, p.drop_last());
            if p.len() == k {
                assert forall|i: int| 0 <= i < k - 1 implies p.drop_last()[i] == p[i] by {}
            }
        }
    }
}

/// Against any target that meets the state, the feedback judged letter by
/// letter is among the enumerated patterns, except where a guessed letter
/// hits its target letter at a position not yet known, or where the guessed
/// letter was excluded at a known position yet occurs in the target.
pub proof fn lemma_true_feedback_enumerated(s: StateView, guess: Seq<char>, target: Seq<char>)
    requires
        s.known.len() == 5,
        s.excluded_at.len() == 5,
        guess.len() == 5,
        target.len() == 5,
        crate::filter::satisfies(target, s),
        forall|i: int|
            0 <= i < 5 ==> {
                &&& (#[trigger] s.known[i] is None ==> guess[i] != target[i])
                &&& (s.known[i] is Some && s.known[i] != Some(guess[i]) && s.excluded_at[i].contains(guess[i])
                    ==> !target.contains(guess[i]))
            },
    ensures
        patterns_upto(s, guess, 5).contains(letterwise_feedback(guess, target)),
{
    let fb = letterwise_feedback(guess, target);
    assert forall|i: int| 0 <= i < 5 implies #[trigger] options(s, guess, i).contains(fb[i]) by {
        assert(crate::filter::fits_at(target, s, i));
        let o = options(s, guess, i);
        if target.contains(guess[i]) {
            let j = choose|j: int| 0 <= j < target.len() && target[j] == guess[i];
            assert(crate::filter::fits_at(target, s, j));
        }
        if o.len() == 1 {
            assert(o[0] == fb[i]);
        } else {
            if fb[i] == FeedbackSymbol::Absent {
                assert(o[0] == fb[i]);
            } else {
                assert(o[1] == fb[i]);
            }
        }
    }
    lemma_patterns_contains(s, guess, 5, fb);
}

/// The symbols that position `index` of `guess` can still receive.
pub fn options_at(state: &ConstraintState, guess: &Word, index: usize) -> (r: Vec<FeedbackSymbol>)
    requires
        index < 5,
    ensures
        r@ == options(state@, guess@, index as int),
{
    let letter = guess[index];
    let r = match state.known[index] {
        Some(l) => if letter == l {
            vec![FeedbackSymbol::Correct]
        } else if state.excluded_at_position[index].contains(letter) {
            vec![FeedbackSymbol::Absent]
        } else {
            vec![FeedbackSymbol::Absent, FeedbackSymbol::Misplaced]
        },
        None => if state.excluded_globally.contains(letter) {
            vec![FeedbackSymbol::Absent]
        } else if state.present_somewhere.contains(letter) {
            vec![FeedbackSymbol::Misplaced]
        } else {
            vec![FeedbackSymbol::Absent, FeedbackSymbol::Misplaced]
        },
    };
    assert(r@ =~= options(state@, guess@, index as int));
    r
}

fn extended(prefix: &Vec<FeedbackSymbol>, sym: FeedbackSymbol) -> (r: Vec<FeedbackSymbol>)
    ensures
        r@ == prefix@.push(sym),
{
    let mut out: Vec<FeedbackSymbol> = Vec::new();
    let mut i: usize = 0;
    while i < prefix.len()
        invariant
            i <= prefix.len(),
            out@ == prefix@.subrange(0, i as int),
        decreases prefix.len() - i,
    {
        out.push(prefix[i]);
        assert(out@ =~= prefix@.subrange(0, i + 1));
        i += 1;
    }
    out.push(sym);
    assert(out@ =~= prefix@.push(sym));
    out
}

/// Every feedback pattern that `guess` can still receive given `state`, each
/// position judged on its own: the cartesian product of the positions'
/// options, earlier positions varying slowest. There are between one and
/// thirty-two of them.
pub fn get_all_possiblities(state: &ConstraintState, guess: &Word) -> (r: Vec<[FeedbackSymbol; 5]>)
    ensures
        array_views(r@) == patterns_upto(state@, guess@, 5),
        1 <= r.len() <= 32,
        forall|p: Seq<FeedbackSymbol>|
            array_views(r@).contains(p) <==> (p.len() == 5 && forall|i: int|
                0 <= i < 5 ==> #[trigger] options(state@, guess@, i).contains(p[i])),
{
    let mut possibilities: Vec<Vec<FeedbackSymbol>> = Vec::new();
    possibilities.push(Vec::new());
    assert(views(possibilities@) =~= patterns_upto(state@, guess@, 0));
    proof {
        vstd::arithmetic::power2::lemma2_to64();
    }
    let mut index: usize = 0;
    while index < 5
        invariant
            index <= 5,
            views(possibilities@) == patterns_upto(state@, guess@, index as int),
            1 <= possibilities.len() <= pow2(index as nat),
            forall|j: int| 0 <= j < possibilities.len() ==> (#[trigger] possibilities@[j])@.len() == index,
        decreases 5 - index,
    {
        let opts = options_at(state, guess, index);
        let ghost ps = views(possibilities@);
        let mut next: Vec<Vec<FeedbackSymbol>> = Vec::new();
        let mut j: usize = 0;
        while j < possibilities.len()
            invariant
                j <= possibilities.len(),
                ps == views(possibilities@),
                opts@ == options(state@, guess@, index as int),
                1 <= opts.len() <= 2,
                views(next@) == extend(ps.subrange(0, j as int), opts@),
                next.len() == j * opts.len(),
                forall|m: int| 0 <= m < next.len() ==> (#[trigger] next@[m])@.len() == index + 1,
                forall|m: int| 0 <= m < possibilities.len() ==> (#[trigger] possibilities@[m])@.len() == index,
            decreases possibilities.len() - j,
        {
            let ghost before = views(next@);
            let mut m: usize = 0;
            while m < opts.len()
                invariant
                    m <= opts.len(),
                    j < possibilities.len(),
                    ps == views(possibilities@),
                    views(next@) == before + opts@.subrange(0, m as int).map_values(
                        |a: FeedbackSymbol| ps[j as int].push(a),
                    ),
                    next.len() == j * opts.len() + m,
                    forall|k: int| 0 <= k < next.len() ==> (#[trigger] next@[k])@.len() == index + 1,
                    forall|k: int| 0 <= k < possibilities.len() ==> (#[trigger] possibilities@[k])@.len() == index,
                    before.len() == j * opts.len(),
                decreases opts.len() - m,
            {
                let p = extended(&possibilities[j], opts[m]);
                let ghost prev = views(next@);
                assert(ps[j as int] == possibilities@[j as int]@);
                next.push(p);
                assert(views(next@) =~= prev.push(p@));
                assert(opts@.subrange(0, m + 1) =~= opts@.subrange(0, m as int).push(opts@[m as int]));
                assert(views(next@) =~= before + opts@.subrange(0, m + 1).map_values(
                    |a: FeedbackSymbol| ps[j as int].push(a),
                ));
                m += 1;
            }
            proof {
                assert(opts@.subrange(0, opts.len() as int) =~= opts@);
                let sub = ps.subrange(0, j + 1);
                assert(sub.drop_last() =~= ps.subrange(0, j as int));
                assert(sub.last() == ps[j as int]);
                assert(views(next@) =~= extend(sub, opts@));
                assert((j + 1) * opts.len() == j * opts.len() + opts.len()) by (nonlinear_arith);
            }
            j += 1;
        }
        proof {
            assert(ps.subrange(0, possibilities.len() as int) =~= ps);
            assert(possibilities.len() * opts.len() <= pow2(index as nat) * 2) by (nonlinear_arith)
                requires possibilities.len() <= pow2(index as nat), opts.len() <= 2;
            assert(pow2((index + 1) as nat) == 2 * pow2(index as nat)) by {
                vstd::arithmetic::power2::lemma_pow2_unfold((index + 1) as nat);
            }
            assert(possibilities.len() * opts.len() >= 1) by (nonlinear_arith)
                requires possibilities.len() >= 1, opts.len() >= 1;
        }
        possibilities = next;
        index += 1;
    }
    let mut out: Vec<[FeedbackSymbol; 5]> = Vec::new();
    let mut k: usize = 0;
    while k < possibilities.len()
        invariant
            k <= possibilities.len(),
            forall|m: int| 0 <= m < possibilities.len() ==> (#[trigger] possibilities@[m])@.len() == 5,
            array_views(out@) == views(possibilities@).subrange(0, k as int),
        decreases possibilities.len() - k,
    {
        let p = &possibilities[k];
        assert(p@.len() == 5);
        let arr = [p[0], p[1], p[2], p[3], p[4]];
        let ghost prev = array_views(out@);
        out.push(arr);
        assert(arr@ =~= p@);
        assert(array_views(out@) =~= prev.push(arr@));
        assert(array_views(out@) =~= views(possibilities@).subrange(0, k + 1));
        k += 1;
    }
    proof {
        assert(views(possibilities@).subrange(0, possibilities.len() as int) =~= views(possibilities@));
        vstd::arithmetic::power2::lemma2_to64();
        assert forall|p: Seq<FeedbackSymbol>|
            array_views(out@).contains(p) <==> (p.len() == 5 && forall|i: int|
                0 <= i < 5 ==> #[trigger] options(state@, guess@, i).contains(p[i])) by {
            lemma_patterns_contains(state@, guess@, 5, p);
        }
    }
    out
}

} // verus!
