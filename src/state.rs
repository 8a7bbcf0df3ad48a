use vstd::prelude::*;

use crate::letters::LetterSet;

verus! {

/// One letter's verdict in a round of feedback.
#[derive(Clone, Copy, Debug, PartialEq, Eq, Structural)]
pub enum FeedbackSymbol {
    Absent,
    Misplaced,
    Correct,
}

/// The ways in which the engine refuses its input.
#[derive(Clone, Copy, Debug, PartialEq, Eq, Structural)]
pub enum SolverError {
    /// A feedback string holds a symbol outside the three-symbol alphabet, or
    /// does not hold exactly five symbols.
    MalformedFeedback,
    /// The constraints leave no candidate word.
    EmptyCandidateSet,
    /// A word does not have exactly five letters.
    WordLengthMismatch,
}

/// A five-letter word, lower case.
pub type Word = [char; 5];

/// A letter in lower case: ASCII upper-case letters are lowered, every other
/// character is left as it is.
pub open spec fn lower(c: char) -> char {
    if 'A' <= c && c <= 'Z' {
        ((c as u32) + 32) as char
    } else {
        c
    }
}

/// The canonical symbol that a feedback character stands for, in either case.
pub open spec fn symbol_of(c: char) -> Option<FeedbackSymbol> {
    if c == 'X' || c == 'x' {
        Some(FeedbackSymbol::Absent)
    } else if c == 'Y' || c == 'y' {
        Some(FeedbackSymbol::Misplaced)
    } else if c == 'Z' || c == 'z' {
        Some(FeedbackSymbol::Correct)
    } else {
        None
    }
}

/// Whether a text is a well-formed feedback string of five symbols.
pub open spec fn is_feedback_text(s: Seq<char>) -> bool {
    s.len() == 5 && forall|i: int| 0 <= i < 5 ==> (#[trigger] symbol_of(s[i])).is_some()
}

/// Lowers the case of an ASCII letter.
pub fn lower_letter(c: char) -> (r: char)
    ensures
        r == lower(c),
{
    match c {
        'A' => 'a',
        'B' => 'b',
        'C' => 'c',
        'D' => 'd',
        'E' => 'e',
        'F' => 'f',
        'G' => 'g',
        'H' => 'h',
        'I' => 'i',
        'J' => 'j',
        'K' => 'k',
        'L' => 'l',
        'M' => 'm',
        'N' => 'n',
        'O' => 'o',
        'P' => 'p',
        'Q' => 'q',
        'R' => 'r',
        'S' => 's',
        'T' => 't',
        'U' => 'u',
        'V' => 'v',
        'W' => 'w',
        'X' => 'x',
        'Y' => 'y',
        'Z' => 'z',
        _ => c,
    }
}

/// What a constraint state says, as mathematical values.
pub struct StateView {
    pub known: Seq<Option<char>>,
    pub excluded: Set<char>,
    pub excluded_at: Seq<Set<char>>,
    pub present: Set<char>,
}

/// The knowledge accumulated from the feedback folded so far in one game.
pub struct ConstraintState {
    /// The letter confirmed at each position, if any.
    pub known: [Option<char>; 5],
    /// Letters confirmed absent from the target.
    pub excluded_globally: LetterSet,
    /// For each position, letters present in the target but not there.
    pub excluded_at_position: [LetterSet; 5],
    /// Letters confirmed to occur somewhere in the target.
    pub present_somewhere: LetterSet,
}

impl View for ConstraintState {
    type V = StateView;

    open spec fn view(&self) -> StateView {
        StateView {
            known: self.known@,
            excluded: self.excluded_globally@,
            excluded_at: self.excluded_at_position@.map_values(|s: LetterSet| s@),
            present: self.present_somewhere@,
        }
    }
}

/// The state that knows nothing.
pub open spec fn empty_view() -> StateView {
    StateView {
        known: Seq::new(5, |i: int| None),
        excluded: Set::empty(),
        excluded_at: Seq::new(5, |i: int| Set::empty()),
        present: Set::empty(),
    }
}

/// The letters confirmed at some position.
pub open spec fn known_letters(known: Seq<Option<char>>) -> Set<char> {
    Set::new(|c: char| exists|i: int| 0 <= i < known.len() && known[i] == Some(c))
}

/// The letters of `guess` among its first `n` positions that received `sym`.
pub open spec fn marked_upto(
    guess: Seq<char>,
    feedback: Seq<FeedbackSymbol>,
    sym: FeedbackSymbol,
    n: int,
) -> Set<char> {
    Set::new(|c: char| exists|i: int| 0 <= i < n && feedback[i] == sym && guess[i] == c)
}

/// The letters of `guess` that received `sym`.
pub open spec fn marked(guess: Seq<char>, feedback: Seq<FeedbackSymbol>, sym: FeedbackSymbol) -> Set<char> {
    marked_upto(guess, feedback, sym, 5)
}

/// The well-formedness of a state: no letter is both excluded and confirmed,
/// and a letter excluded at a position is known to be present.
pub open spec fn state_wf(s: StateView) -> bool {
    &&& s.known.len() == 5
    &&& s.excluded_at.len() == 5
    &&& s.excluded.disjoint(s.present)
    &&& s.excluded.disjoint(known_letters(s.known))
    &&& forall|i: int| 0 <= i < 5 ==> (#[trigger] s.excluded_at[i]).subset_of(s.present)
}

/// The state after one round of feedback on `guess`. Positions marked correct
/// fix the known letter there; misplaced letters become present and excluded
/// at their position; absent letters become excluded, unless the same round
/// or earlier knowledge shows them present.
pub open spec fn fold_view(s: StateView, guess: Seq<char>, feedback: Seq<FeedbackSymbol>) -> StateView {
    let known = Seq::new(
        5,
        |i: int|
            if feedback[i] == FeedbackSymbol::Correct {
                Some(guess[i])
            } else {
                s.known[i]
            },
    );
    let present = s.present.union(marked(guess, feedback, FeedbackSymbol::Misplaced));
    StateView {
        known,
        excluded: s.excluded.union(marked(guess, feedback, FeedbackSymbol::Absent)).difference(
            present,
        ).difference(known_letters(known)),
        excluded_at: Seq::new(
            5,
            |i: int|
                if feedback[i] == FeedbackSymbol::Misplaced {
                    s.excluded_at[i].insert(guess[i])
                } else {
                    s.excluded_at[i]
                },
        ),
        present,
    }
}

impl ConstraintState {
    /// A state that knows nothing yet.
    pub fn new() -> (r: ConstraintState)
        ensures
            r@ == empty_view(),
            state_wf(r@),
    {
        let r = ConstraintState {
            known: [None, None, None, None, None],
            excluded_globally: LetterSet::new(),
            excluded_at_position: [
                LetterSet::new(),
                LetterSet::new(),
                LetterSet::new(),
                LetterSet::new(),
                LetterSet::new(),
            ],
            present_somewhere: LetterSet::new(),
        };
        assert(r@.known =~= empty_view().known);
        assert(r@.excluded_at =~= empty_view().excluded_at);
        r
    }

    /// Forgets everything, as at the start of a new game.
    pub fn clear(&mut self)
        ensures
            final(self)@ == empty_view(),
    {
        *self = ConstraintState::new();
    }

    /// A copy of the state.
    pub fn duplicate(&self) -> (r: ConstraintState)
        ensures
            r@ == self@,
    {
        let r = ConstraintState {
            known: self.known,
            excluded_globally: self.excluded_globally.duplicate(),
            excluded_at_position: [
                self.excluded_at_position[0].duplicate(),
                self.excluded_at_position[1].duplicate(),
                self.excluded_at_position[2].duplicate(),
                self.excluded_at_position[3].duplicate(),
                self.excluded_at_position[4].duplicate(),
            ],
            present_somewhere: self.present_somewhere.duplicate(),
        };
        assert(r@.excluded_at =~= self@.excluded_at);
        r
    }

    /// Folds one round of feedback on `guess` into the state, positions
    /// taken from first to last. Folding the same round twice changes nothing
    /// the second time.
    pub fn fold(&mut self, guess: &Word, feedback: &[FeedbackSymbol; 5])
        ensures
            final(self)@ == fold_view(old(self)@, guess@, feedback@),
            state_wf(old(self)@) ==> state_wf(final(self)@),
    {
        let ghost s0 = self@;
        let mut excluded = self.excluded_globally.duplicate();
        let mut i: usize = 0;
        while i < 5
            invariant
                i <= 5,
                s0 == old(self)@,
                forall|j: int|
                    0 <= j < 5 ==> #[trigger] self.known@[j] == if j < i && feedback@[j]
                        == FeedbackSymbol::Correct {
                        Some(guess@[j])
                    } else {
                        s0.known[j]
                    },
                forall|j: int|
                    0 <= j < 5 ==> #[trigger] self.excluded_at_position@[j]@ == if j < i
                        && feedback@[j] == FeedbackSymbol::Misplaced {
                        s0.excluded_at[j].insert(guess@[j])
                    } else {
                        s0.excluded_at[j]
                    },
                self.present_somewhere@ == s0.present.union(
                    marked_upto(guess@, feedback@, FeedbackSymbol::Misplaced, i as int),
                ),
                excluded@ == s0.excluded.union(
                    marked_upto(guess@, feedback@, FeedbackSymbol::Absent, i as int),
                ),
            decreases 5 - i,
        {
            let letter = guess[i];
            match feedback[i] {
                FeedbackSymbol::Absent => {
                    excluded.insert(letter);
                },
                FeedbackSymbol::Misplaced => {
                    self.present_somewhere.insert(letter);
                    let mut here = self.excluded_at_position[i].duplicate();
                    here.insert(letter);
                    self.excluded_at_position[i] = here;
                },
                FeedbackSymbol::Correct => {
                    self.known[i] = Some(letter);
                },
            }
            assert(self.present_somewhere@ =~= s0.present.union(
                marked_upto(guess@, feedback@, FeedbackSymbol::Misplaced, i + 1),
            ));
            assert(excluded@ =~= s0.excluded.union(
                marked_upto(guess@, feedback@, FeedbackSymbol::Absent, i + 1),
            ));
            i += 1;
        }
        let mut confirmed = LetterSet::new();
        let mut k: usize = 0;
        while k < 5
            invariant
                k <= 5,
                forall|c: char|
                    confirmed@.contains(c) <==> exists|j: int|
                        0 <= j < k && self.known@[j] == Some(c),
            decreases 5 - k,
        {
            match self.known[k] {
                Some(c) => {
                    confirmed.insert(c);
                },
                None => {},
            }
            k += 1;
        }
        let without_present = excluded.difference(&self.present_somewhere);
        self.excluded_globally = without_present.difference(&confirmed);
        proof {
            let f = fold_view(s0, guess@, feedback@);
            assert(self@.known =~= f.known);
            assert(self@.excluded_at =~= f.excluded_at);
            assert(confirmed@ =~= known_letters(f.known));
            assert(self@.excluded =~= f.excluded);
        }
    }
}

/// The symbols of a well-formed feedback text.
pub open spec fn parsed_feedback(s: Seq<char>) -> Seq<FeedbackSymbol> {
    Seq::new(5, |i: int| symbol_of(s[i]).unwrap())
}

/// The canonical symbol of a feedback character: `X`, `Y`, `Z` in either case.
pub fn symbol_from_char(c: char) -> (r: Option<FeedbackSymbol>)
    ensures
        r == symbol_of(c),
{
    if c == 'X' || c == 'x' {
        Some(FeedbackSymbol::Absent)
    } else if c == 'Y' || c == 'y' {
        Some(FeedbackSymbol::Misplaced)
    } else if c == 'Z' || c == 'z' {
        Some(FeedbackSymbol::Correct)
    } else {
        None
    }
}

/// Reads a feedback text of exactly five symbols, each of `X` (absent),
/// `Y` (misplaced) or `Z` (correct) in either case.
pub fn parse_feedback(text: &str) -> (r: Result<[FeedbackSymbol; 5], SolverError>)
    ensures
        r is Ok <==> is_feedback_text(text@),
        r matches Ok(p) ==> p@ == parsed_feedback(text@),
        r matches Err(e) ==> e == SolverError::MalformedFeedback,
{
    if text.unicode_len() != 5 {
        return Err(SolverError::MalformedFeedback);
    }
    let mut out: [FeedbackSymbol; 5] = [FeedbackSymbol::Absent; 5];
    let mut i: usize = 0;
    while i < 5
        invariant
            i <= 5,
            text@.len() == 5,
            forall|j: int| 0 <= j < i ==> (#[trigger] symbol_of(text@[j])) == Some(out@[j]),
        decreases 5 - i,
    {
        match symbol_from_char(text.get_char(i)) {
            Some(sym) => {
                out[i] = sym;
            },
            None => {
                assert(symbol_of(text@[i as int]) is None);
                return Err(SolverError::MalformedFeedback);
            },
        }
        i += 1;
    }
    assert(out@ =~= parsed_feedback(text@));
    Ok(out)
}

/// Reads a word of exactly five letters, lowering the case of ASCII letters.
pub fn parse_word(text: &str) -> (r: Result<Word, SolverError>)
    ensures
        r is Ok <==> text@.len() == 5,
        r matches Ok(w) ==> w@ == text@.map_values(|c: char| lower(c)),
        r matches Err(e) ==> e == SolverError::WordLengthMismatch,
{
    if text.unicode_len() != 5 {
        return Err(SolverError::WordLengthMismatch);
    }
    let mut out: Word = [' '; 5];
    let mut i: usize = 0;
    while i < 5
        invariant
            i <= 5,
            text@.len() == 5,
            forall|j: int| 0 <= j < i ==> out@[j] == lower(text@[j]),
        decreases 5 - i,
    {
        out[i] = lower_letter(text.get_char(i));
        i += 1;
    }
    assert(out@ =~= text@.map_values(|c: char| lower(c)));
    Ok(out)
}

impl ConstraintState {
    /// Reads a feedback text for `guess` and folds it in. A malformed text
    /// leaves the state as it was.
    pub fn fold_feedback(&mut self, guess: &Word, feedback: &str) -> (r: Result<(), SolverError>)
        ensures
            r is Ok <==> is_feedback_text(feedback@),
            r is Ok ==> final(self)@ == fold_view(old(self)@, guess@, parsed_feedback(feedback@)),
            r matches Err(e) ==> e == SolverError::MalformedFeedback && final(self)@ == old(self)@,
    {
        let symbols = parse_feedback(feedback)?;
        self.fold(guess, &symbols);
        Ok(())
    }
}

} // verus!
