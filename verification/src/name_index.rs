//! An index from names to atoms: the atoms stand in buckets, each in the
//! bucket of the hash of its name, so that a name is looked for among few.

use crate::nameck::Atom;
use vstd::prelude::*;

verus! {

/// The number of buckets.
pub const BUCKETS: usize = 65536;

/// The hash of the first `n` bytes of a name.
pub open spec fn hash_of(name: Seq<u8>, n: int) -> int
    decreases n,
{
    if n <= 0 {
        0
    } else {
        (hash_of(name, n - 1) * 31 + name[n - 1]) % 65536
    }
}

/// The bucket of a name: the hash of its bytes.
pub open spec fn key_of(name: Seq<u8>) -> int {
    hash_of(name, name.len() as int)
}

/// A hash is the number of a bucket.
pub proof fn lemma_hash_range(name: Seq<u8>, n: int)
    ensures
        0 <= hash_of(name, n) < 65536,
    decreases n,
{
    if n > 0 {
        lemma_hash_range(name, n - 1);
    }
}

/// The bucket of a name.
pub fn hash(name: &[u8]) -> (h: usize)
    ensures
        h == key_of(name@),
        h < BUCKETS,
{
    let mut h: usize = 0;
    let mut i: usize = 0;
    while i < name.len()
        invariant
            0 <= i <= name@.len(),
            h == hash_of(name@, i as int),
            h < 65536,
        decreases name@.len() - i,
    {
        h = (h * 31 + name[i] as usize) % 65536;
        i += 1;
    }
    h
}

/// The buckets, and the names that the atoms in them stand for.
pub struct NameIndex {
    buckets: Vec<Vec<Atom>>,
    names: Ghost<Seq<Seq<u8>>>,
}

impl NameIndex {
    /// The names that were taken up, in their order: the atom of a name is
    /// its place among them.
    pub closed spec fn names(&self) -> Seq<Seq<u8>> {
        self.names@
    }

    /// Whether the index leads to each of the names `names`, which are the
    /// names that it took up.
    pub open spec fn leads_to(&self, names: Seq<Seq<u8>>) -> bool {
        self.wf() && self.names() == names
    }

    /// The invariant of the index: the atom of each of its names stands in
    /// the bucket of the name, and the buckets hold nothing but atoms of
    /// its names.
    pub closed spec fn wf(&self) -> bool {
        let names = self.names@;
        &&& self.buckets@.len() == BUCKETS
        &&& forall|a: int|
            0 <= a < names.len() ==> self.buckets@[key_of(#[trigger] names[a])]@.contains(a as Atom)
        &&& forall|k: int, j: int|
            0 <= k < BUCKETS && 0 <= j < self.buckets@[k]@.len() ==> (
            #[trigger] self.buckets@[k]@[j]) < names.len()
    }

    /// An index with empty buckets.
    pub fn new() -> (r: NameIndex)
        ensures
            r.leads_to(Seq::empty()),
    {
        let mut buckets: Vec<Vec<Atom>> = Vec::new();
        let mut i: usize = 0;
        while i < BUCKETS
            invariant
                0 <= i <= BUCKETS,
                buckets@.len() == i,
                forall|k: int| 0 <= k < i ==> (#[trigger] buckets@[k])@.len() == 0,
            decreases BUCKETS - i,
        {
            buckets.push(Vec::new());
            i += 1;
        }
        NameIndex { buckets, names: Ghost(Seq::empty()) }
    }

    /// Takes up `name` as the next of the names, with the atom `atom`.
    pub fn add(&mut self, name: &[u8], atom: Atom)
        requires
            old(self).wf(),
            atom == old(self).names().len(),
        ensures
            final(self).leads_to(old(self).names().push(name@)),
    {
        let ghost names = self.names@;
        let h = hash(name);
        let ghost before = self.buckets@;
        let mut bucket: Vec<Atom> = Vec::new();
        std::mem::swap(&mut bucket, &mut self.buckets[h]);
        bucket.push(atom);
        self.buckets[h] = bucket;
        self.names = Ghost(names.push(name@));
        proof {
            let after = self.buckets@;
            let all = names.push(name@);
            assert(after[h as int]@ == before[h as int]@.push(names.len() as Atom));
            assert forall|a: int| 0 <= a < all.len() implies after[key_of(
                #[trigger] all[a],
            )]@.contains(a as Atom) by {
                lemma_hash_range(all[a], all[a].len() as int);
                let k = key_of(all[a]);
                if a < names.len() {
                    assert(all[a] == names[a]);
                    assert(before[k]@.contains(a as Atom));
                    let j = choose|j: int| 0 <= j < before[k]@.len() && before[k]@[j] == a as Atom;
                    if k == h {
                        assert(after[k]@[j] == a as Atom);
                    } else {
                        assert(after[k] == before[k]);
                    }
                } else {
                    assert(all[a] == name@);
                    assert(after[h as int]@[before[h as int]@.len() as int] == a as Atom);
                }
            }
            assert forall|k: int, j: int|
                0 <= k < BUCKETS && 0 <= j < after[k]@.len() implies (#[trigger] after[k]@[j])
                < all.len() by {
                if k == h {
                    if j < before[k]@.len() {
                        assert(after[k]@[j] == before[k]@[j]);
                    }
                } else {
                    assert(after[k] == before[k]);
                    assert(before[k]@[j] < names.len());
                }
            }
        }
    }

    /// The atoms among which the atom of `name` is, if the name has one:
    /// the atoms of the names of its bucket, in the order in which the
    /// names were taken up.
    pub fn candidates(&self, name: &[u8]) -> (r: &Vec<Atom>)
        requires
            self.wf(),
        ensures
            forall|j: int| 0 <= j < r@.len() ==> (#[trigger] r@[j]) < self.names().len(),
            forall|a: int|
                0 <= a < self.names().len() && (#[trigger] self.names()[a]) == name@
                    ==> r@.contains(a as Atom),
    {
        let ghost names = self.names@;
        let h = hash(name);
        &self.buckets[h]
    }
}

} // verus!
