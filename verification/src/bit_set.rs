//! A growable set of small natural numbers, packed sixty-four to a word.

use vstd::prelude::*;

verus! {

/// Whether bit `bit` of `word` is set.
pub open spec fn word_has(word: u64, bit: u64) -> bool {
    (word >> bit) & 1 == 1
}

proof fn lemma_word_set(word: u64, bit: u64, other: u64)
    requires
        bit < 64,
        other < 64,
    ensures
        word_has(word | (1u64 << bit), other) == (other == bit || word_has(word, other)),
{
    assert(((word | (1u64 << bit)) >> other) & 1 == 1 <==> (other == bit || (word >> other) & 1
        == 1)) by (bit_vector)
        requires
            bit < 64,
            other < 64,
    ;
}

proof fn lemma_word_zero(bit: u64)
    requires
        bit < 64,
    ensures
        !word_has(0, bit),
{
    assert((0u64 >> bit) & 1 != 1) by (bit_vector)
        requires
            bit < 64,
    ;
}

/// A set of indices. Bits beyond the last stored word are clear.
pub struct Bitset {
    words: Vec<u64>,
}

impl View for Bitset {
    type V = Set<int>;

    closed spec fn view(&self) -> Set<int> {
        Set::new(|i: int| self.holds(i))
    }
}

impl Bitset {
    /// Membership of `i`, read off the stored words.
    pub closed spec fn holds(&self, i: int) -> bool {
        0 <= i && i / 64 < self.words@.len() && word_has(self.words@[i / 64], (i % 64) as u64)
    }

    /// `i` is in the view exactly when its bit is set; no negative number is.
    pub proof fn lemma_view(&self, i: int)
        ensures
            self@.contains(i) == self.holds(i),
            self@.contains(i) ==> 0 <= i,
    {
    }

    /// The empty set.
    pub fn new() -> (s: Bitset)
        ensures
            s@ == Set::<int>::empty(),
    {
        let s = Bitset { words: Vec::new() };
        assert(s@ =~= Set::<int>::empty());
        s
    }

    /// Whether `index` is in the set.
    pub fn has_bit(&self, index: usize) -> (r: bool)
        ensures
            r == self@.contains(index as int),
    {
        let word: usize = index / 64;
        if word < self.words.len() {
            let bit: u64 = (index % 64) as u64;
            (self.words[word] >> bit) & 1 == 1
        } else {
            false
        }
    }

    /// Adds `index` to the set.
    pub fn set_bit(&mut self, index: usize)
        ensures
            final(self)@ == old(self)@.insert(index as int),
    {
        let word: usize = index / 64;
        let bit: u64 = (index % 64) as u64;
        while self.words.len() <= word
            invariant
                word == index / 64,
                self.words@.len() >= old(self).words@.len(),
                forall|k: int| 0 <= k < old(self).words@.len() ==> self.words@[k] == old(self).words@[k],
                forall|k: int| old(self).words@.len() <= k < self.words@.len() ==> self.words@[k] == 0,
            decreases word + 1 - self.words.len(),
        {
            self.words.push(0);
        }
        let ghost before = self.words@;
        let updated: u64 = self.words[word] | (1u64 << bit);
        self.words[word] = updated;
        proof {
            assert forall|i: int| final(self)@.contains(i) == old(self)@.insert(index as int).contains(i) by {
                if 0 <= i && i / 64 < self.words@.len() {
                    let b = (i % 64) as u64;
                    if i / 64 == word as int {
                        lemma_word_set(before[word as int], bit, b);
                        if word as int >= old(self).words@.len() {
                            lemma_word_zero(b);
                        }
                    } else if i / 64 >= old(self).words@.len() {
                        lemma_word_zero(b);
                    }
                }
            }
            assert(final(self)@ =~= old(self)@.insert(index as int));
        }
    }

    /// A copy of the set.
    pub fn duplicate(&self) -> (s: Bitset)
        ensures
            s@ == self@,
    {
        let s = Bitset { words: self.words.clone() };
        assert(s.words@ =~= self.words@);
        assert(s@ =~= self@);
        s
    }
}

} // verus!
