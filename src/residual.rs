//! The set of currently violated clauses: a dense list plus a position index per clause,
//! so that insertion, membership and removal each take constant time.
use vstd::prelude::*;

verus! {

/// Clause indices below a fixed capacity; `items` holds the members densely and
/// `pos[j]` the slot of member `j`.
pub struct ResidualSet {
    items: Vec<usize>,
    pos: Vec<usize>,
}

impl ResidualSet {
    /// Number of clause indices the set can hold: `0..capacity()`.
    pub closed spec fn capacity(&self) -> nat {
        self.pos@.len()
    }

    /// Clause `j` is in the set.
    pub closed spec fn has(&self, j: int) -> bool {
        0 <= j < self.pos@.len() && self.pos@[j] < self.items@.len() && self.items@[self.pos@[j] as int] == j
    }

    /// The members in slot order.
    pub closed spec fn slots(&self) -> Seq<usize> {
        self.items@
    }

    /// The slot of member `j`.
    pub closed spec fn slot_of(&self, j: int) -> int {
        self.pos@[j] as int
    }

    /// Every slot's member is in range and its position entry points back at the slot.
    pub closed spec fn wf(&self) -> bool {
        forall|i: int|
            0 <= i < self.items@.len() ==> (#[trigger] self.items@[i] as int) < self.pos@.len()
                && self.pos@[self.items@[i] as int] == i
    }

    /// The members as a set of clause indices.
    pub open spec fn view(&self) -> Set<int> {
        Set::new(|j: int| self.has(j))
    }

    pub proof fn lemma_slots(&self)
        requires
            self.wf(),
        ensures
            forall|i: int| 0 <= i < self.slots().len() ==> self.has(#[trigger] self.slots()[i] as int),
            self.slots().len() == 0 <==> self@ =~= Set::empty(),
    {
        if self.slots().len() > 0 {
            assert(self@.contains(self.items@[0] as int));
        }
    }

    /// Members are clause indices below the capacity.
    pub proof fn lemma_bounded(&self)
        ensures
            forall|j: int| #[trigger] self.has(j) ==> 0 <= j < self.capacity(),
    {
    }

    /// An empty set for clause indices below `capacity`.
    pub fn new(capacity: usize) -> (r: Self)
        ensures
            r.wf(),
            r.capacity() == capacity,
            r@ =~= Set::empty(),
            forall|k: int| !r.has(k),
    {
        let mut pos: Vec<usize> = Vec::new();
        let mut i: usize = 0;
        while i < capacity
            invariant
                i <= capacity,
                pos@.len() == i,
            decreases capacity - i,
        {
            pos.push(0);
            i += 1;
        }
        ResidualSet { items: Vec::new(), pos }
    }

    pub fn is_empty(&self) -> (r: bool)
        requires
            self.wf(),
        ensures
            r <==> self@ =~= Set::empty(),
    {
        proof {
            self.lemma_slots();
        }
        self.items.len() == 0
    }

    pub fn contains(&self, j: usize) -> (r: bool)
        ensures
            r == self.has(j as int),
    {
        j < self.pos.len() && self.pos[j] < self.items.len() && self.items[self.pos[j]] == j
    }

    /// The member in the first slot.
    pub fn first(&self) -> (r: usize)
        requires
            self.wf(),
            !(self@ =~= Set::empty()),
        ensures
            self.has(r as int),
            r == self.slots()[0],
            (r as int) < self.capacity(),
    {
        proof {
            self.lemma_slots();
        }
        self.items[0]
    }

    /// Adds a clause that is not yet a member; it takes the last slot.
    pub fn insert(&mut self, j: usize)
        requires
            old(self).wf(),
            (j as int) < old(self).capacity(),
            !old(self).has(j as int),
        ensures
            final(self).wf(),
            final(self).capacity() == old(self).capacity(),
            final(self)@ == old(self)@.insert(j as int),
            forall|k: int| #[trigger] final(self).has(k) <==> old(self).has(k) || k == j,
            final(self).slots() == old(self).slots().push(j),
    {
        let ghost prev = *self;
        let n = self.items.len();
        self.items.push(j);
        self.pos.set(j, n);
        proof {
            assert forall|i: int| 0 <= i < self.items@.len() implies (#[trigger] self.items@[i] as int)
                < self.pos@.len() && self.pos@[self.items@[i] as int] == i by {
                if i < n {
                    assert(prev.items@[i] != j) by {
                        assert(prev.pos@[prev.items@[i] as int] == i);
                    }
                }
            }
            assert forall|k: int| self.has(k) <==> prev.has(k) || k == j by {
                if k != j && 0 <= k < self.pos@.len() && prev.has(k) {
                    assert(self.items@[self.pos@[k] as int] == k);
                }
                if k != j && self.has(k) {
                    assert(self.pos@[k] == prev.pos@[k]);
                    if self.pos@[k] == n {
                        assert(self.items@[n as int] == j);
                    }
                }
            }
            assert(self@ =~= prev@.insert(j as int));
        }
    }

    /// Removes a member: the last slot's member moves into its slot.
    pub fn remove(&mut self, j: usize)
        requires
            old(self).wf(),
            old(self).has(j as int),
        ensures
            final(self).wf(),
            final(self).capacity() == old(self).capacity(),
            final(self)@ == old(self)@.remove(j as int),
            forall|k: int| #[trigger] final(self).has(k) <==> old(self).has(k) && k != j,
            final(self).slots() == old(self).slots().update(old(self).slot_of(j as int), old(self).slots().last()).drop_last(),
    {
        let ghost prev = *self;
        let p = self.pos[j];
        let last = self.items.len() - 1;
        let moved = self.items[last];
        self.items.set(p, moved);
        self.pos.set(moved, p);
        self.items.pop();
        proof {
            assert(self.items@ =~= prev.items@.update(p as int, prev.items@.last()).drop_last());
            assert forall|i: int| 0 <= i < self.items@.len() implies (#[trigger] self.items@[i] as int)
                < self.pos@.len() && self.pos@[self.items@[i] as int] == i by {
                if i != p {
                    assert(prev.items@[i] == self.items@[i]);
                    assert(prev.pos@[prev.items@[i] as int] == i);
                    assert(prev.items@[i] != moved) by {
                        assert(prev.pos@[moved as int] == last);
                    }
                }
            }
            assert forall|k: int| self.has(k) <==> prev.has(k) && k != j by {
                if prev.has(k) && k != j {
                    let q = prev.pos@[k];
                    if k == moved {
                        assert(self.items@[p as int] == k);
                    } else {
                        assert(q != last) by {
                            assert(prev.pos@[moved as int] == last);
                        }
                        assert(q != p);
                        assert(self.items@[q as int] == k);
                    }
                }
                if self.has(k) {
                    if k == j {
                        if j == moved {
                            assert(p == last);
                        } else {
                            assert(self.pos@[k] == p);
                            assert(self.items@[p as int] == moved);
                        }
                    }
                    if k == moved {
                        assert(prev.has(k));
                    } else {
                        assert(self.pos@[k] == prev.pos@[k]);
                        assert(prev.items@[self.pos@[k] as int] == k || self.pos@[k] == p);
                    }
                }
            }
            assert(self@ =~= prev@.remove(j as int));
        }
    }
}

} // verus!
