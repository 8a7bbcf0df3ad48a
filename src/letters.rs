use vstd::prelude::*;

verus! {

/// A finite set of letters, kept as a list without repetitions.
pub struct LetterSet {
    items: Vec<char>,
}

impl View for LetterSet {
    type V = Set<char>;

    closed spec fn view(&self) -> Set<char> {
        Set::new(|c: char| self.items@.contains(c))
    }
}

impl LetterSet {
    /// The empty set.
    pub fn new() -> (r: LetterSet)
        ensures
            r@ == Set::<char>::empty(),
    {
        let r = LetterSet { items: Vec::new() };
        assert(r@ =~= Set::<char>::empty());
        r
    }

    /// Whether `c` belongs to the set.
    pub fn contains(&self, c: char) -> (r: bool)
        ensures
            r == self@.contains(c),
    {
        let mut i: usize = 0;
        while i < self.items.len()
            invariant
                i <= self.items.len(),
                forall|j: int| 0 <= j < i ==> self.items@[j] != c,
            decreases self.items.len() - i,
        {
            if self.items[i] == c {
                assert(self.items@.contains(c));
                return true;
            }
            i += 1;
        }
        false
    }

    /// Adds `c` to the set.
    pub fn insert(&mut self, c: char)
        ensures
            final(self)@ == old(self)@.insert(c),
    {
        if !self.contains(c) {
            self.items.push(c);
            proof {
                assert forall|x: char| self.items@.contains(x) <==> (old(self).items@.contains(x) || x == c) by {
                    lemma_push_contains(old(self).items@, c, x);
                }
            }
        }
        assert(self@ =~= old(self)@.insert(c));
    }

    /// The letters of `self` that are not in `other`.
    pub fn difference(&self, other: &LetterSet) -> (r: LetterSet)
        ensures
            r@ == self@.difference(other@),
    {
        let mut out: Vec<char> = Vec::new();
        let mut i: usize = 0;
        while i < self.items.len()
            invariant
                i <= self.items.len(),
                forall|x: char|
                    out@.contains(x) <==> (self.items@.subrange(0, i as int).contains(x)
                        && !other@.contains(x)),
            decreases self.items.len() - i,
        {
            let c = self.items[i];
            let ghost before = out@;
            if !other.contains(c) {
                out.push(c);
            }
            proof {
                assert(self.items@.subrange(0, i + 1) =~= self.items@.subrange(0, i as int).push(c));
                assert forall|x: char|
                    out@.contains(x) <==> (self.items@.subrange(0, i + 1).contains(x)
                        && !other@.contains(x)) by {
                    lemma_push_contains(self.items@.subrange(0, i as int), c, x);
                    lemma_push_contains(before, c, x);
                }
            }
            i += 1;
        }
        assert(self.items@.subrange(0, self.items@.len() as int) =~= self.items@);
        let r = LetterSet { items: out };
        assert(r@ =~= self@.difference(other@));
        r
    }

    /// A copy of the set.
    pub fn duplicate(&self) -> (r: LetterSet)
        ensures
            r@ == self@,
    {
        let mut out: Vec<char> = Vec::new();
        let mut i: usize = 0;
        while i < self.items.len()
            invariant
                i <= self.items.len(),
                out@ == self.items@.subrange(0, i as int),
            decreases self.items.len() - i,
        {
            out.push(self.items[i]);
            assert(out@ =~= self.items@.subrange(0, i + 1));
            i += 1;
        }
        assert(out@ =~= self.items@);
        LetterSet { items: out }
    }

    /// The letters of the set, each once.
    pub fn to_vec(&self) -> (r: Vec<char>)
        ensures
            forall|c: char| r@.contains(c) <==> self@.contains(c),
    {
        let d = self.duplicate();
        d.items
    }
}

proof fn lemma_push_contains(s: Seq<char>, c: char, x: char)
    ensures
        s.push(c).contains(x) <==> (s.contains(x) || x == c),
{
    if s.contains(x) {
        let j = choose|j: int| 0 <= j < s.len() && s[j] == x;
        assert(s.push(c)[j] == x);
    }
    if x == c {
        assert(s.push(c)[s.len() as int] == x);
    }
    if s.push(c).contains(x) {
        let j = choose|j: int| 0 <= j < s.push(c).len() && s.push(c)[j] == x;
        if j < s.len() {
            assert(s[j] == x);
        }
    }
}

} // verus!
