//! Numbered records with stable ids.
//!
//! An id is the position of its record. Ids of records that were taken out are given out again,
//! first out first.

use vstd::prelude::*;
use std::collections::VecDeque;

verus! {

/// Entries that are not in use, in the order in which they are used again.
#[verifier::ext_equal]
pub struct Pool {
    pub len: int,
    pub free: Seq<usize>,
}

impl Pool {
    /// The id that is given out next; `None` when `max` are in use.
    pub open spec fn next(self, max: int) -> Option<int> {
        if self.free.len() > 0 {
            Some(self.free[0] as int)
        } else if self.len < max {
            Some(self.len)
        } else {
            None
        }
    }

    /// Without the id that was given out.
    pub open spec fn taken(self) -> Pool {
        if self.free.len() > 0 {
            Pool { free: self.free.subrange(1, self.free.len() as int), ..self }
        } else {
            Pool { len: self.len + 1, ..self }
        }
    }

    /// With an id that was given back.
    pub open spec fn given(self, id: usize) -> Pool {
        Pool { free: self.free.push(id), ..self }
    }

    /// Ids below `len` that are not free are in use.
    pub open spec fn wf(self, max: int) -> bool {
        &&& 0 <= self.len <= max
        &&& forall|k: int| 0 <= k < self.free.len() ==> (#[trigger] self.free[k]) < self.len
        &&& forall|k: int, j: int|
            0 <= k < j < self.free.len() ==> #[trigger] self.free[k] != #[trigger] self.free[j]
    }

    /// The id is in use.
    pub open spec fn live(self, id: int) -> bool {
        0 <= id < self.len && !self.free.contains(id as usize)
    }

    /// Taking an id from the pool.
    pub proof fn lemma_take(self, max: int)
        requires
            self.wf(max),
            self.next(max) is Some,
            max <= usize::MAX,
        ensures
            self.taken().wf(max),
            !self.live(self.next(max)->0),
            0 <= self.next(max)->0 < max,
            forall|id: int| #[trigger]
                self.taken().live(id) <==> self.live(id) || id == self.next(max)->0,
    {
        let t = self.taken();
        if self.free.len() > 0 {
            assert(self.free[0] < self.len);
            assert(self.free.contains(self.free[0]));
            assert forall|k: int, j: int| 0 <= k < j < t.free.len() implies #[trigger] t.free[k]
                != #[trigger] t.free[j] by {
                assert(t.free[k] == self.free[k + 1] && t.free[j] == self.free[j + 1]);
            }
            assert forall|k: int| 0 <= k < t.free.len() implies (#[trigger] t.free[k]) < t.len by {
                assert(t.free[k] == self.free[k + 1]);
            }
            assert forall|id: int| #[trigger] t.live(id) <==> self.live(id) || id
                == self.free[0] by {
                if 0 <= id < self.len {
                    let x = id as usize;
                    if t.free.contains(x) {
                        let k = t.free.index_of(x);
                        assert(self.free[k + 1] == x);
                        assert(self.free.contains(x));
                        assert(self.free[0] != self.free[k + 1]);
                    } else if self.free.contains(x) {
                        let k = self.free.index_of(x);
                        if k > 0 {
                            assert(t.free[k - 1] == x);
                        }
                    }
                }
            }
        } else {
            assert forall|id: int| #[trigger] t.live(id) <==> self.live(id) || id == self.len by {}
        }
    }

    /// Giving an id back to the pool.
    pub proof fn lemma_give(self, id: usize, max: int)
        requires
            self.wf(max),
            self.live(id as int),
            max <= usize::MAX,
        ensures
            self.given(id).wf(max),
            forall|x: int| #[trigger] self.given(id).live(x) <==> self.live(x) && x != id,
    {
        let g = self.given(id);
        assert forall|k: int, j: int| 0 <= k < j < g.free.len() implies #[trigger] g.free[k]
            != #[trigger] g.free[j] by {
            if j == self.free.len() {
                assert(self.free.contains(self.free[k]));
            }
        }
        assert forall|x: int| #[trigger] g.live(x) <==> self.live(x) && x != id by {
            if 0 <= x < self.len {
                let y = x as usize;
                if self.free.contains(y) {
                    let k = self.free.index_of(y);
                    assert(g.free[k] == y);
                }
                if y == id {
                    assert(g.free[self.free.len() as int] == y);
                }
                if g.free.contains(y) {
                    let k = g.free.index_of(y);
                    if k < self.free.len() {
                        assert(self.free[k] == y);
                    }
                }
            }
        }
    }
}

/// Records by id.
pub struct Registry<T> {
    slots: Vec<Option<T>>,
    free: VecDeque<usize>,
    max: usize,
}

impl<T> Registry<T> {
    /// Ids in use and ids to use again.
    pub closed spec fn pool(&self) -> Pool {
        Pool { len: self.slots@.len() as int, free: self.free@ }
    }

    /// Most records at one time.
    pub closed spec fn limit(&self) -> int {
        self.max as int
    }

    /// Exactly the ids in use have a record.
    pub closed spec fn wf(&self) -> bool {
        &&& self.pool().wf(self.limit())
        &&& forall|i: int| #![trigger self.slots@[i]]
            0 <= i < self.slots@.len() ==> (self.slots@[i] is Some <==> self.pool().live(i))
    }

    /// The records.
    pub closed spec fn view(&self) -> Map<int, T> {
        Map::new(|i: int| self.pool().live(i), |i: int| self.slots@[i]->0)
    }

    /// The ids in use are those that have a record.
    pub proof fn lemma_view(&self)
        requires
            self.wf(),
        ensures
            self.pool().wf(self.limit()),
            self.limit() <= usize::MAX,
            forall|i: int| #[trigger] self@.dom().contains(i) <==> self.pool().live(i),
            forall|i: int| #[trigger] self@.dom().contains(i) ==> 0 <= i < self.limit(),
    {
    }
}

impl<T: Copy> Registry<T> {
    /// No record.
    pub fn new(max: usize) -> (r: Registry<T>)
        ensures
            r.wf(),
            r.limit() == max,
            r@ == Map::<int, T>::empty(),
            r.pool() == (Pool { len: 0, free: Seq::empty() }),
    {
        let r = Registry { slots: Vec::new(), free: VecDeque::new(), max };
        assert(r@ =~= Map::<int, T>::empty());
        r
    }

    /// The record with the id, if there is one.
    pub fn get(&self, id: usize) -> (r: Option<T>)
        requires
            self.wf(),
        ensures
            r is Some <==> self@.dom().contains(id as int),
            r matches Some(x) ==> x == self@[id as int],
    {
        if id < self.slots.len() {
            self.slots[id]
        } else {
            None
        }
    }

    /// Whether there is room for one more record.
    pub fn has_room(&self) -> (r: bool)
        requires
            self.wf(),
        ensures
            r == self.pool().next(self.limit()) is Some,
    {
        self.free.len() > 0 || self.slots.len() < self.max
    }

    /// Put a record in.
    pub fn insert(&mut self, v: T) -> (id: usize)
        requires
            old(self).wf(),
            old(self).pool().next(old(self).limit()) is Some,
        ensures
            final(self).wf(),
            final(self).limit() == old(self).limit(),
            id as int == old(self).pool().next(old(self).limit())->0,
            id < old(self).limit(),
            final(self).pool() == old(self).pool().taken(),
            !old(self)@.dom().contains(id as int),
            final(self)@ == old(self)@.insert(id as int, v),
    {
        proof {
            self.pool().lemma_take(self.limit());
        }
        let ghost before = *self;
        let id: usize = match self.free.pop_front() {
            Some(idx) => {
                self.slots.set(idx, Some(v));
                idx
            },
            None => {
                let idx: usize = self.slots.len();
                self.slots.push(Some(v));
                idx
            },
        };
        proof {
            assert(self.pool() =~= before.pool().taken());
            assert forall|i: int| #![trigger self.slots@[i]]
                0 <= i < self.slots@.len() implies (self.slots@[i] is Some <==> self.pool().live(
                i,
            )) by {
                if i != id {
                    assert(self.slots@[i] == before.slots@[i]);
                }
                assert(self.pool().live(i) <==> before.pool().live(i) || i == id);
            }
            assert(self@ =~= before@.insert(id as int, v)) by {
                assert forall|i: int| #[trigger] self@.dom().contains(i)
                    <==> before@.dom().contains(i) || i == id by {
                    assert(self.pool().live(i) <==> before.pool().live(i) || i == id);
                }
            }
        }
        id
    }

    /// Replace a record.
    pub fn set(&mut self, id: usize, v: T)
        requires
            old(self).wf(),
            old(self)@.dom().contains(id as int),
        ensures
            final(self).wf(),
            final(self).limit() == old(self).limit(),
            final(self).pool() == old(self).pool(),
            final(self)@ == old(self)@.insert(id as int, v),
    {
        let ghost before = *self;
        self.slots.set(id, Some(v));
        assert(self@ =~= before@.insert(id as int, v));
    }

    /// Take a record out.
    pub fn remove(&mut self, id: usize)
        requires
            old(self).wf(),
            old(self)@.dom().contains(id as int),
        ensures
            final(self).wf(),
            final(self).limit() == old(self).limit(),
            final(self).pool() == old(self).pool().given(id),
            final(self)@ == old(self)@.remove(id as int),
    {
        proof {
            self.pool().lemma_give(id, self.limit());
        }
        let ghost before = *self;
        self.slots.set(id, None);
        self.free.push_back(id);
        proof {
            assert(self.pool() =~= before.pool().given(id));
            assert forall|i: int| #![trigger self.slots@[i]]
                0 <= i < self.slots@.len() implies (self.slots@[i] is Some <==> self.pool().live(
                i,
            )) by {
                if i != id {
                    assert(self.slots@[i] == before.slots@[i]);
                }
                assert(self.pool().live(i) <==> before.pool().live(i) && i != id);
            }
            assert(self@ =~= before@.remove(id as int)) by {
                assert forall|i: int| #[trigger] self@.dom().contains(i)
                    <==> before@.dom().contains(i) && i != id by {
                    assert(self.pool().live(i) <==> before.pool().live(i) && i != id);
                }
            }
        }
    }
}

} // verus!
