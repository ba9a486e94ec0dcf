//! A total order over the identifiers of the live segments, into which a new
//! identifier can be put at any place.

use crate::parser::SegmentId;
use std::cmp::Ordering;
use vstd::prelude::*;

verus! {

/// In a sequence without repetitions an element has one position only.
pub proof fn lemma_position<A>(s: Seq<A>, i: int)
    requires
        s.no_duplicates(),
        0 <= i < s.len(),
    ensures
        s.index_of(s[i]) == i,
{
    let j = s.index_of(s[i]);
    assert(0 <= j < s.len() && s[j] == s[i]);
}

/// The live identifiers in their order. The first is a mark that stands
/// before every segment.
pub struct SegmentOrder {
    high_water: u32,
    order: Vec<SegmentId>,
    free: Vec<SegmentId>,
}

impl View for SegmentOrder {
    type V = Seq<SegmentId>;

    closed spec fn view(&self) -> Seq<SegmentId> {
        self.order@
    }
}

impl SegmentOrder {
    /// The mark that stands before every segment.
    pub open spec fn start_id() -> SegmentId {
        SegmentId(1)
    }

    /// The invariant of the order: no identifier is live twice, and the mark
    /// comes first.
    pub closed spec fn wf(&self) -> bool {
        &&& self.order@.no_duplicates()
        &&& self.order@.len() > 0
        &&& self.order@[0] == Self::start_id()
        &&& self.high_water >= 2
        &&& forall|i: int| 0 <= i < self.order@.len() ==> (#[trigger] self.order@[i]).0 < self.high_water
        &&& forall|i: int| 0 <= i < self.free@.len() ==> (#[trigger] self.free@[i]).0 < self.high_water
        &&& forall|i: int| 0 <= i < self.free@.len() ==> !self.order@.contains(#[trigger] self.free@[i])
        &&& self.free@.no_duplicates()
        &&& self.free@.len() + self.order@.len() == self.high_water - 1
    }

    /// The identifiers that were taken out of the order and wait to be
    /// given again, the one that is given next last.
    pub closed spec fn freed(&self) -> Seq<SegmentId> {
        self.free@
    }

    /// The least number that no identifier has had yet.
    pub closed spec fn high_water(&self) -> u32 {
        self.high_water
    }

    /// The identifier that is made live next: the one that was taken out
    /// last, if one waits; else the one with the least number that no
    /// identifier has had, if there is one left.
    pub open spec fn next_id(&self) -> Option<SegmentId> {
        if self.freed().len() > 0 {
            Some(self.freed().last())
        } else if self.high_water() < u32::MAX {
            Some(SegmentId(self.high_water()))
        } else {
            None
        }
    }

    /// The order once the identifier that is made live next has been taken:
    /// what then waits, and the least number that no identifier has had.
    pub open spec fn taken(&self, after: &SegmentOrder) -> bool {
        if self.freed().len() > 0 {
            after.freed() == self.freed().drop_last() && after.high_water() == self.high_water()
        } else if self.high_water() < u32::MAX {
            after.freed() == self.freed() && after.high_water() == self.high_water() + 1
        } else {
            after.freed() == self.freed() && after.high_water() == self.high_water()
        }
    }

    /// The place of a live identifier in the order.
    pub open spec fn position(&self, id: SegmentId) -> int {
        self@.index_of(id)
    }

    /// A well-formed order holds the mark, first, and nothing twice.
    pub proof fn lemma_wf(&self)
        requires
            self.wf(),
        ensures
            self@.no_duplicates(),
            self@.len() > 0,
            self@[0] == Self::start_id(),
            self.position(Self::start_id()) == 0,
    {
        lemma_position(self@, 0);
    }

    /// An order that holds the mark only.
    pub fn new() -> (o: SegmentOrder)
        ensures
            o.wf(),
            o@ == seq![Self::start_id()],
            o.freed() == Seq::<SegmentId>::empty(),
            o.high_water() == 2,
    {
        let mut order: Vec<SegmentId> = Vec::new();
        order.push(SegmentId(1));
        let o = SegmentOrder { high_water: 2, order, free: Vec::new() };
        assert(o@ =~= seq![Self::start_id()]);
        o
    }

    /// A copy of the order.
    pub fn duplicate(&self) -> (o: SegmentOrder)
        requires
            self.wf(),
        ensures
            o.wf(),
            o@ == self@,
            o.freed() == self.freed(),
            o.high_water() == self.high_water(),
    {
        let mut order: Vec<SegmentId> = Vec::new();
        let mut i: usize = 0;
        while i < self.order.len()
            invariant
                0 <= i <= self.order@.len(),
                order@ == self.order@.subrange(0, i as int),
            decreases self.order@.len() - i,
        {
            order.push(self.order[i]);
            assert(order@ =~= self.order@.subrange(0, i + 1));
            i += 1;
        }
        assert(self.order@.subrange(0, self.order@.len() as int) =~= self.order@);
        let mut free: Vec<SegmentId> = Vec::new();
        let mut i: usize = 0;
        while i < self.free.len()
            invariant
                0 <= i <= self.free@.len(),
                free@ == self.free@.subrange(0, i as int),
            decreases self.free@.len() - i,
        {
            free.push(self.free[i]);
            assert(free@ =~= self.free@.subrange(0, i + 1));
            i += 1;
        }
        assert(self.free@.subrange(0, self.free@.len() as int) =~= self.free@);
        SegmentOrder { high_water: self.high_water, order, free }
    }

    /// The mark that stands before every segment.
    pub fn start(&self) -> (id: SegmentId)
        ensures
            id == Self::start_id(),
    {
        SegmentId(1)
    }

    /// The place of `id`, if it is live.
    pub fn find(&self, id: SegmentId) -> (r: Option<usize>)
        requires
            self.wf(),
        ensures
            match r {
                Some(i) => self@.contains(id) && i == self.position(id) && i < self@.len()
                    && self@[i as int] == id,
                None => !self@.contains(id),
            },
    {
        let mut i: usize = 0;
        while i < self.order.len()
            invariant
                0 <= i <= self.order@.len(),
                self.order@.no_duplicates(),
                forall|j: int| 0 <= j < i ==> self.order@[j] != id,
            decreases self.order@.len() - i,
        {
            if self.order[i] == id {
                proof {
                    lemma_position(self.order@, i as int);
                }
                return Some(i);
            }
            i += 1;
        }
        None
    }

    /// Compares two live identifiers by their places.
    pub fn compare(&self, a: SegmentId, b: SegmentId) -> (r: Ordering)
        requires
            self.wf(),
            self@.contains(a),
            self@.contains(b),
        ensures
            (r == Ordering::Less) == (self.position(a) < self.position(b)),
            (r == Ordering::Equal) == (a == b),
            (r == Ordering::Greater) == (self.position(a) > self.position(b)),
    {
        let pa = self.find(a).unwrap();
        let pb = self.find(b).unwrap();
        if pa < pb {
            Ordering::Less
        } else if pa == pb {
            Ordering::Equal
        } else {
            Ordering::Greater
        }
    }

    /// Makes a new identifier live, directly behind `a`: the one that was
    /// taken out last, if one waits, else the one with the next number.
    /// `None`, and no change, when every identifier is live already.
    pub fn insert_after(&mut self, a: SegmentId) -> (r: Option<SegmentId>)
        requires
            old(self).wf(),
            old(self)@.contains(a),
        ensures
            final(self).wf(),
            r == old(self).next_id(),
            old(self).taken(final(self)),
            match r {
                Some(id) => !old(self)@.contains(id) && final(self)@ == old(self)@.insert(
                    old(self).position(a) + 1,
                    id,
                ),
                None => final(self)@ == old(self)@ && old(self)@.len() >= u32::MAX - 1,
            },
    {
        let at = self.find(a).unwrap();
        let live = self.order.len();
        assert(at < live);
        let id = match self.free.pop() {
            Some(id) => {
                id
            },
            None => {
                if self.high_water == u32::MAX {
                    return None;
                }
                let id = SegmentId(self.high_water);
                self.high_water = self.high_water + 1;
                id
            },
        };
        let ghost before = self.order@;
        assert(!before.contains(id)) by {
            if before.contains(id) {
                let i = choose|i: int| 0 <= i < before.len() && before[i] == id;
                if old(self).free@.len() > 0 {
                    assert(old(self).free@[old(self).free@.len() - 1] == id);
                }
            }
        }
        self.order.insert(at + 1, id);
        proof {
            let after = self.order@;
            assert forall|i: int, j: int|
                0 <= i < after.len() && 0 <= j < after.len() && i != j implies after[i]
                != after[j] by {
                let oi = if i <= at {
                    i
                } else {
                    i - 1
                };
                let oj = if j <= at {
                    j
                } else {
                    j - 1
                };
                if i != at + 1 && j != at + 1 {
                    assert(after[i] == before[oi]);
                    assert(after[j] == before[oj]);
                } else if i == at + 1 {
                    assert(after[j] == before[oj]);
                } else {
                    assert(after[i] == before[oi]);
                }
            }
            assert forall|i: int| 0 <= i < self.free@.len() implies !after.contains(
                #[trigger] self.free@[i],
            ) by {
                let f = self.free@[i];
                assert(old(self).free@[i] == f);
                if after.contains(f) {
                    let k = choose|k: int| 0 <= k < after.len() && after[k] == f;
                    if k == at + 1 {
                        if old(self).free@.len() > self.free@.len() {
                            assert(old(self).free@[old(self).free@.len() - 1] == id);
                        }
                    } else if k <= at {
                        assert(before[k] == f);
                    } else {
                        assert(before[k - 1] == f);
                    }
                }
            }
            assert forall|i: int| 0 <= i < after.len() implies (#[trigger] after[i]).0
                < self.high_water by {
                if i <= at {
                    assert(after[i] == before[i]);
                } else if i > at + 1 {
                    assert(after[i] == before[i - 1]);
                } else {
                    if old(self).free@.len() > self.free@.len() {
                        assert(old(self).free@[old(self).free@.len() - 1] == id);
                    }
                }
            }
        }
        Some(id)
    }

    /// Makes a new identifier live between `a` and `b`, directly behind `a`,
    /// as `insert_after` does. `None`, and no change, when every identifier
    /// is live already.
    pub fn insert_between(&mut self, a: SegmentId, b: SegmentId) -> (r: Option<SegmentId>)
        requires
            old(self).wf(),
            old(self)@.contains(a),
            old(self)@.contains(b),
            old(self).position(a) < old(self).position(b),
        ensures
            final(self).wf(),
            r == old(self).next_id(),
            old(self).taken(final(self)),
            match r {
                Some(id) => {
                    &&& !old(self)@.contains(id)
                    &&& final(self)@ == old(self)@.insert(old(self).position(a) + 1, id)
                    &&& final(self).position(a) < final(self).position(id) < final(self).position(b)
                },
                None => final(self)@ == old(self)@ && old(self)@.len() >= u32::MAX - 1,
            },
    {
        let ghost pa = self.position(a);
        let ghost pb = self.position(b);
        proof {
            let i = choose|i: int| 0 <= i < self@.len() && self@[i] == a;
            let j = choose|j: int| 0 <= j < self@.len() && self@[j] == b;
        }
        let r = self.insert_after(a);
        proof {
            if r is Some {
                let s = self@;
                assert(s[pa] == a);
                assert(s[pa + 1] == r->0);
                assert(s[pb + 1] == b);
                lemma_position(s, pa);
                lemma_position(s, pa + 1);
                lemma_position(s, pb + 1);
            }
        }
        r
    }

    /// Takes `id` out of the order. The mark stays.
    pub fn free_id(&mut self, id: SegmentId)
        requires
            old(self).wf(),
            old(self)@.contains(id),
            id != Self::start_id(),
        ensures
            final(self).wf(),
            final(self)@ == old(self)@.remove(old(self).position(id)),
            final(self).freed() == old(self).freed().push(id),
            final(self).high_water() == old(self).high_water(),
    {
        let at = self.find(id).unwrap();
        let ghost before = self.order@;
        self.order.remove(at);
        self.free.push(id);
        proof {
            let after = self.order@;
            assert forall|i: int| 0 <= i < after.len() implies #[trigger] after[i] == before[if i
                < at {
                i
            } else {
                i + 1
            }] by {}
            assert forall|i: int, j: int|
                0 <= i < after.len() && 0 <= j < after.len() && i != j implies after[i]
                != after[j] by {}
            assert(!after.contains(id)) by {
                if after.contains(id) {
                    let k = choose|k: int| 0 <= k < after.len() && after[k] == id;
                    assert(after[k] == before[if k < at {
                        k
                    } else {
                        k + 1
                    }]);
                }
            }
            assert forall|i: int| 0 <= i < self.free@.len() implies !after.contains(
                #[trigger] self.free@[i],
            ) by {
                let f = self.free@[i];
                if i < old(self).free@.len() {
                    assert(old(self).free@[i] == f);
                    if after.contains(f) {
                        let k = choose|k: int| 0 <= k < after.len() && after[k] == f;
                        assert(after[k] == before[if k < at {
                            k
                        } else {
                            k + 1
                        }]);
                    }
                }
            }
            assert(self.free@.no_duplicates()) by {
                assert forall|i: int, j: int|
                    0 <= i < self.free@.len() && 0 <= j < self.free@.len() && i
                        != j implies self.free@[i] != self.free@[j] by {
                    if i < old(self).free@.len() && j < old(self).free@.len() {
                    } else if i < old(self).free@.len() {
                        assert(!before.contains(old(self).free@[i]));
                    } else {
                        assert(!before.contains(old(self).free@[j]));
                    }
                }
            }
            assert(after[0] == before[0]);
        }
    }
}

} // verus!
