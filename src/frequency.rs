use vstd::prelude::*;

use crate::state::{lower, lower_letter, Word};

verus! {

/// The twenty-six letters, in alphabetical order.
pub open spec fn alphabet() -> Seq<char> {
    seq!['a','b','c','d','e','f','g','h','i','j','k','l','m','n','o','p','q','r','s','t','u','v','w','x','y','z']
}

/// How often `c` occurs in `text`, case folded.
pub open spec fn letter_count(text: Seq<char>, c: char) -> nat
    decreases text.len(),
{
    if text.len() == 0 {
        0
    } else {
        letter_count(text.drop_last(), c) + if lower(text.last()) == c {
            1nat
        } else {
            0nat
        }
    }
}

/// Where `c` first occurs in `text`, case folded, if it does.
pub open spec fn first_seen(text: Seq<char>, c: char) -> Option<int>
    decreases text.len(),
{
    if text.len() == 0 {
        None
    } else {
        match first_seen(text.drop_last(), c) {
            Some(i) => Some(i),
            None => if lower(text.last()) == c {
                Some(text.len() - 1)
            } else {
                None
            },
        }
    }
}

/// Whether a first occurrence at `fa` comes before one at `fb`; a letter
/// that occurs comes before one that does not.
pub open spec fn seen_earlier(fa: Option<int>, fb: Option<int>) -> bool {
    match (fa, fb) {
        (Some(x), Some(y)) => x < y,
        (Some(_), None) => true,
        _ => false,
    }
}

/// Whether `a` ranks before `b` in `text`: more frequent first, then seen
/// earlier, then alphabetical.
pub open spec fn ranks_before(text: Seq<char>, a: char, b: char) -> bool {
    ||| letter_count(text, a) > letter_count(text, b)
    ||| letter_count(text, a) == letter_count(text, b) && seen_earlier(
        first_seen(text, a),
        first_seen(text, b),
    )
    ||| letter_count(text, a) == letter_count(text, b) && first_seen(text, a) == first_seen(text, b)
        && a < b
}

/// How many of the first `n` letters of the alphabet rank before `c`.
pub open spec fn count_before(text: Seq<char>, c: char, n: int) -> nat
    decreases n,
{
    if n <= 0 {
        0
    } else {
        count_before(text, c, n - 1) + if ranks_before(text, alphabet()[n - 1], c) {
            1nat
        } else {
            0nat
        }
    }
}

/// The position of `c` in the ranking of the alphabet by `text`: 0 for the
/// most frequent letter. A character outside the alphabet comes after every
/// letter.
pub open spec fn rank_of(text: Seq<char>, c: char) -> nat {
    if alphabet().contains(c) {
        count_before(text, c, 26)
    } else {
        26
    }
}

pub open spec fn opt_int(o: Option<usize>) -> Option<int> {
    match o {
        Some(x) => Some(x as int),
        None => None,
    }
}

/// The letters of the alphabet ranked by how often they occur in a corpus.
pub struct FrequencyRanker {
    counts: Vec<usize>,
    firsts: Vec<Option<usize>>,
    corpus: Ghost<Seq<char>>,
}

impl View for FrequencyRanker {
    type V = Seq<char>;

    /// The corpus that the ranking was computed from.
    closed spec fn view(&self) -> Seq<char> {
        self.corpus@
    }
}

impl FrequencyRanker {
    /// Whether the tallies agree with the corpus.
    pub closed spec fn wf(&self) -> bool {
        &&& self.counts.len() == 26
        &&& self.firsts.len() == 26
        &&& forall|k: int|
            0 <= k < 26 ==> #[trigger] self.counts@[k] == letter_count(self.corpus@, alphabet()[k])
        &&& forall|k: int|
            0 <= k < 26 ==> opt_int(#[trigger] self.firsts@[k]) == first_seen(
                self.corpus@,
                alphabet()[k],
            )
    }

    /// Tallies the letters of `text`, case folded.
    pub fn from_corpus(text: &str) -> (r: FrequencyRanker)
        ensures
            r.wf(),
            r@ == text@,
    {
        let n = text.unicode_len();
        let letters = alphabet_letters();
        let mut counts: Vec<usize> = Vec::new();
        let mut firsts: Vec<Option<usize>> = Vec::new();
        let mut k: usize = 0;
        while k < 26
            invariant
                k <= 26,
                counts.len() == k,
                firsts.len() == k,
                forall|j: int| 0 <= j < k ==> #[trigger] counts@[j] == 0,
                forall|j: int| 0 <= j < k ==> #[trigger] firsts@[j] is None,
            decreases 26 - k,
        {
            counts.push(0);
            firsts.push(None);
            k += 1;
        }
        let mut i: usize = 0;
        while i < n
            invariant
                i <= n,
                n == text@.len(),
                letters@ == alphabet(),
                counts.len() == 26,
                firsts.len() == 26,
                forall|j: int|
                    0 <= j < 26 ==> #[trigger] counts@[j] == letter_count(
                        text@.subrange(0, i as int),
                        alphabet()[j],
                    ),
                forall|j: int|
                    0 <= j < 26 ==> opt_int(#[trigger] firsts@[j]) == first_seen(
                        text@.subrange(0, i as int),
                        alphabet()[j],
                    ),
                forall|j: int| 0 <= j < 26 ==> #[trigger] counts@[j] <= i,
            decreases n - i,
        {
            let c = lower_letter(text.get_char(i));
            let ghost prefix = text@.subrange(0, i + 1);
            assert(prefix.drop_last() =~= text@.subrange(0, i as int));
            assert(prefix.last() == text@[i as int]);
            match letter_index(&letters, c) {
                Some(k) => {
                    counts.set(k, counts[k] + 1);
                    if firsts[k].is_none() {
                        firsts.set(k, Some(i));
                    }
                },
                None => {},
            }
            i += 1;
        }
        assert(text@.subrange(0, n as int) =~= text@);
        FrequencyRanker { counts, firsts, corpus: Ghost(text@) }
    }

    /// The position of `c` in the ranking: 0 for the most frequent letter.
    /// It depends on the corpus and the letter alone.
    pub fn rank(&self, c: char) -> (r: usize)
        requires
            self.wf(),
        ensures
            r == rank_of(self@, c),
            r <= 26,
    {
        let letters = alphabet_letters();
        let x = match letter_index(&letters, c) {
            Some(x) => x,
            None => {
                return 26;
            },
        };
        let mut r: usize = 0;
        let mut k: usize = 0;
        while k < 26
            invariant
                k <= 26,
                self.wf(),
                letters@ == alphabet(),
                r == count_before(self@, c, k as int),
                r <= k,
                x < 26 && alphabet()[x as int] == c,
            decreases 26 - k,
        {
            let before = self.counts[k] > self.counts[x] || (self.counts[k] == self.counts[x] && (
            earlier(self.firsts[k], self.firsts[x]) || (same_first(self.firsts[k], self.firsts[x])
                && letters[k] < c)));
            assert(before == ranks_before(self@, alphabet()[k as int], c));
            if before {
                r += 1;
            }
            k += 1;
        }
        assert(alphabet().contains(c)) by {
            assert(alphabet()[x as int] == c);
        }
        r
    }
}

fn same_first(a: Option<usize>, b: Option<usize>) -> (r: bool)
    ensures
        r == (opt_int(a) == opt_int(b)),
{
    match (a, b) {
        (Some(x), Some(y)) => x == y,
        (None, None) => true,
        _ => false,
    }
}

fn earlier(a: Option<usize>, b: Option<usize>) -> (r: bool)
    ensures
        r == seen_earlier(opt_int(a), opt_int(b)),
{
    match (a, b) {
        (Some(x), Some(y)) => x < y,
        (Some(_), None) => true,
        _ => false,
    }
}

/// The alphabet, as an array.
pub fn alphabet_letters() -> (r: [char; 26])
    ensures
        r@ == alphabet(),
{
    let r = ['a','b','c','d','e','f','g','h','i','j','k','l','m','n','o','p','q','r','s','t','u','v','w','x','y','z'];
    assert(r@ =~= alphabet());
    r
}

/// The place of `c` in the alphabet, if it is a lower-case letter.
fn letter_index(letters: &[char; 26], c: char) -> (r: Option<usize>)
    requires
        letters@ == alphabet(),
    ensures
        r matches Some(k) ==> k < 26 && alphabet()[k as int] == c,
        r is None ==> !alphabet().contains(c),
{
    let mut k: usize = 0;
    while k < 26
        invariant
            k <= 26,
            letters@ == alphabet(),
            forall|j: int| 0 <= j < k ==> alphabet()[j] != c,
        decreases 26 - k,
    {
        if letters[k] == c {
            return Some(k);
        }
        k += 1;
    }
    None
}

proof fn lemma_first_seen_letter(text: Seq<char>, c: char)
    ensures
        first_seen(text, c) matches Some(i) ==> 0 <= i < text.len() && lower(text[i]) == c,
    decreases text.len(),
{
    if text.len() > 0 {
        lemma_first_seen_letter(text.drop_last(), c);
    }
}

proof fn lemma_count_before_gap(text: Seq<char>, a: char, b: char, ia: int, n: int)
    requires
        0 <= ia < 26,
        alphabet()[ia] == a,
        ranks_before(text, a, b),
        0 <= n <= 26,
    ensures
        count_before(text, b, n) >= count_before(text, a, n) + if ia < n {
            1int
        } else {
            0int
        },
    decreases n,
{
    if n > 0 {
        lemma_count_before_gap(text, a, b, ia, n - 1);
    }
}

proof fn lemma_count_before_bound(text: Seq<char>, a: char, ia: int, n: int)
    requires
        0 <= ia < 26,
        alphabet()[ia] == a,
        0 <= n <= 26,
    ensures
        count_before(text, a, n) + if ia < n {
            1int
        } else {
            0int
        } <= n,
    decreases n,
{
    if n > 0 {
        lemma_count_before_bound(text, a, ia, n - 1);
    }
}

/// The ranking is a total order on the alphabet: each letter has a rank
/// below twenty-six, and two different letters never share a rank.
pub proof fn lemma_rank_total(text: Seq<char>, a: char, b: char)
    requires
        alphabet().contains(a),
        alphabet().contains(b),
        a != b,
    ensures
        rank_of(text, a) < 26,
        rank_of(text, a) != rank_of(text, b),
{
    let ia = choose|i: int| 0 <= i < 26 && alphabet()[i] == a;
    let ib = choose|i: int| 0 <= i < 26 && alphabet()[i] == b;
    lemma_count_before_bound(text, a, ia, 26);
    lemma_first_seen_letter(text, a);
    lemma_first_seen_letter(text, b);
    if ranks_before(text, a, b) {
        lemma_count_before_gap(text, a, b, ia, 26);
    } else {
        assert(ranks_before(text, b, a));
        lemma_count_before_gap(text, b, a, ib, 26);
    }
}

/// The number of letters of `w` that do not occur earlier in `w`.
pub open spec fn distinct_count(w: Seq<char>) -> nat
    decreases w.len(),
{
    if w.len() == 0 {
        0
    } else {
        distinct_count(w.drop_last()) + if w.drop_last().contains(w.last()) {
            0nat
        } else {
            1nat
        }
    }
}

/// The sum of the ranks of the letters of `w`.
pub open spec fn rank_sum(text: Seq<char>, w: Seq<char>) -> nat
    decreases w.len(),
{
    if w.len() == 0 {
        0
    } else {
        rank_sum(text, w.drop_last()) + rank_of(text, w.last())
    }
}

/// Whether `a` is preferred to `b` by letter frequency: more distinct
/// letters first, then a lower sum of letter ranks.
pub open spec fn preferred(text: Seq<char>, a: Seq<char>, b: Seq<char>) -> bool {
    ||| distinct_count(a) > distinct_count(b)
    ||| distinct_count(a) == distinct_count(b) && rank_sum(text, a) < rank_sum(text, b)
}

impl FrequencyRanker {
    /// The two keys that order words by frequency: the number of distinct
    /// letters, and the sum of the letters' ranks.
    pub fn frequency_key(&self, word: &Word) -> (r: (usize, usize))
        requires
            self.wf(),
        ensures
            r.0 == distinct_count(word@),
            r.1 == rank_sum(self@, word@),
    {
        let mut distinct: usize = 0;
        let mut sum: usize = 0;
        let mut i: usize = 0;
        while i < 5
            invariant
                i <= 5,
                self.wf(),
                distinct == distinct_count(word@.subrange(0, i as int)),
                sum == rank_sum(self@, word@.subrange(0, i as int)),
                distinct <= i,
                sum <= 26 * i,
            decreases 5 - i,
        {
            let ghost prefix = word@.subrange(0, i + 1);
            assert(prefix.drop_last() =~= word@.subrange(0, i as int));
            let mut seen = false;
            let mut j: usize = 0;
            while j < i
                invariant
                    j <= i < 5,
                    seen == exists|m: int| 0 <= m < j && word@[m] == word@[i as int],
                decreases i - j,
            {
                if word[j] == word[i] {
                    seen = true;
                }
                j += 1;
            }
            assert(seen == prefix.drop_last().contains(prefix.last())) by {
                if seen {
                    let m = choose|m: int| 0 <= m < i && word@[m] == word@[i as int];
                    assert(prefix.drop_last()[m] == prefix.last());
                }
            }
            if !seen {
                distinct += 1;
            }
            sum += self.rank(word[i]);
            i += 1;
        }
        assert(word@.subrange(0, 5) =~= word@);
        (distinct, sum)
    }

    /// How two words compare by frequency: `Less` when `a` is preferred,
    /// `Greater` when `b` is, `Equal` when both keys agree.
    pub fn compare_by_frequency(&self, a: &Word, b: &Word) -> (r: std::cmp::Ordering)
        requires
            self.wf(),
        ensures
            r == std::cmp::Ordering::Less <==> preferred(self@, a@, b@),
            r == std::cmp::Ordering::Greater <==> preferred(self@, b@, a@),
    {
        let ka = self.frequency_key(a);
        let kb = self.frequency_key(b);
        if ka.0 > kb.0 || (ka.0 == kb.0 && ka.1 < kb.1) {
            std::cmp::Ordering::Less
        } else if kb.0 > ka.0 || (kb.0 == ka.0 && kb.1 < ka.1) {
            std::cmp::Ordering::Greater
        } else {
            std::cmp::Ordering::Equal
        }
    }

    /// The index of the candidate preferred by frequency, the first one
    /// where several tie; none for an empty list.
    pub fn pick_by_frequency(&self, candidates: &Vec<Word>) -> (r: Option<usize>)
        requires
            self.wf(),
        ensures
            r is None <==> candidates.len() == 0,
            r matches Some(k) ==> {
                &&& k < candidates.len()
                &&& forall|j: int|
                    0 <= j < candidates.len() ==> !#[trigger] preferred(
                        self@,
                        candidates@[j]@,
                        candidates@[k as int]@,
                    )
                &&& forall|j: int|
                    0 <= j < k ==> #[trigger] preferred(self@, candidates@[k as int]@, candidates@[j]@)
            },
    {
        if candidates.len() == 0 {
            return None;
        }
        let mut best: usize = 0;
        let mut best_key = self.frequency_key(&candidates[0]);
        let mut i: usize = 1;
        while i < candidates.len()
            invariant
                1 <= i <= candidates.len(),
                self.wf(),
                best < i,
                best_key.0 == distinct_count(candidates@[best as int]@),
                best_key.1 == rank_sum(self@, candidates@[best as int]@),
                forall|j: int|
                    0 <= j < i ==> !#[trigger] preferred(
                        self@,
                        candidates@[j]@,
                        candidates@[best as int]@,
                    ),
                forall|j: int|
                    0 <= j < best ==> #[trigger] preferred(
                        self@,
                        candidates@[best as int]@,
                        candidates@[j]@,
                    ),
            decreases candidates.len() - i,
        {
            let key = self.frequency_key(&candidates[i]);
            if key.0 > best_key.0 || (key.0 == best_key.0 && key.1 < best_key.1) {
                proof {
                    let bw = candidates@[best as int]@;
                    let iw = candidates@[i as int]@;
                    assert(preferred(self@, iw, bw));
                    assert forall|j: int| 0 <= j < i + 1 implies !#[trigger] preferred(
                        self@,
                        candidates@[j]@,
                        iw,
                    ) by {
                        if j < i {
                            assert(!preferred(self@, candidates@[j]@, bw));
                        }
                    }
                    assert forall|j: int| 0 <= j < i implies #[trigger] preferred(
                        self@,
                        iw,
                        candidates@[j]@,
                    ) by {
                        assert(!preferred(self@, candidates@[j]@, bw));
                    }
                }
                best = i;
                best_key = key;
            } else {
                assert(!preferred(self@, candidates@[i as int]@, candidates@[best as int]@));
            }
            i += 1;
        }
        Some(best)
    }

    /// Where `x` goes in a list ordered by frequency: before the first word
    /// that it is preferred to.
    fn insert_position(&self, out: &Vec<Word>, x: &Word) -> (p: usize)
        requires
            self.wf(),
        ensures
            p <= out.len(),
            forall|a: int| 0 <= a < p ==> !#[trigger] preferred(self@, x@, out@[a]@),
            p < out.len() ==> preferred(self@, x@, out@[p as int]@),
    {
        let kx = self.frequency_key(x);
        let mut p: usize = 0;
        while p < out.len()
            invariant
                p <= out.len(),
                self.wf(),
                kx.0 == distinct_count(x@),
                kx.1 == rank_sum(self@, x@),
                forall|a: int| 0 <= a < p ==> !#[trigger] preferred(self@, x@, out@[a]@),
            decreases out.len() - p,
        {
            let ko = self.frequency_key(&out[p]);
            if kx.0 > ko.0 || (kx.0 == ko.0 && kx.1 < ko.1) {
                return p;
            }
            p += 1;
        }
        p
    }

    /// The candidates ordered by frequency, most preferred first; words whose
    /// keys agree keep their relative order.
    pub fn order_by_frequency(&self, candidates: &Vec<Word>) -> (r: Vec<Word>)
        requires
            self.wf(),
        ensures
            r@.to_multiset() == candidates@.to_multiset(),
            forall|i: int, j: int|
                0 <= i < j < r.len() ==> !#[trigger] preferred(self@, r@[j]@, r@[i]@),
    {
        let mut out: Vec<Word> = Vec::new();
        assert(out@ =~= candidates@.subrange(0, 0));
        let mut i: usize = 0;
        while i < candidates.len()
            invariant
                i <= candidates.len(),
                self.wf(),
                out@.to_multiset() == candidates@.subrange(0, i as int).to_multiset(),
                forall|a: int, b: int|
                    0 <= a < b < out.len() ==> !#[trigger] preferred(self@, out@[b]@, out@[a]@),
            decreases candidates.len() - i,
        {
            let x = candidates[i];
            let p = self.insert_position(&out, &x);
            let ghost before = out@;
            proof {
                assert(candidates@.subrange(0, i + 1) =~= candidates@.subrange(0, i as int).push(x));
                assert forall|b: int| p <= b < before.len() implies !#[trigger] preferred(
                    self@,
                    before[b]@,
                    x@,
                ) by {
                    if b > p {
                        assert(!preferred(self@, before[b]@, before[p as int]@));
                    }
                }
            }
            out.insert(p, x);
            proof {
                assert(out@ == before.insert(p as int, x));
                vstd::seq_lib::to_multiset_insert(before, p as int, x);
                vstd::seq_lib::to_multiset_build(candidates@.subrange(0, i as int), x);
                assert(out@.to_multiset() == before.to_multiset().insert(x));
                assert(candidates@.subrange(0, i as int).push(x).to_multiset()
                    == candidates@.subrange(0, i as int).to_multiset().insert(x));
                assert forall|a: int, b: int| 0 <= a < b < out.len() implies !#[trigger] preferred(
                    self@,
                    out@[b]@,
                    out@[a]@,
                ) by {
                    if b < p {
                        assert(out@[a] == before[a] && out@[b] == before[b]);
                    } else if b == p {
                        assert(out@[a] == before[a]);
                    } else if a == p {
                        assert(out@[b] == before[b - 1]);
                    } else if a < p {
                        assert(out@[a] == before[a] && out@[b] == before[b - 1]);
                        assert(!preferred(self@, before[b - 1]@, before[a]@));
                    } else {
                        assert(out@[a] == before[a - 1] && out@[b] == before[b - 1]);
                        assert(!preferred(self@, before[b - 1]@, before[a - 1]@));
                    }
                }
            }
            i += 1;
        }
        assert(candidates@.subrange(0, candidates.len() as int) =~= candidates@);
        out
    }
}

} // verus!
