//! The entity registry: issues monotonically fresh entity identifiers and
//! tracks which are live. Identifiers are never reused: a destroyed
//! identifier stays retired for the registry's lifetime.

use vstd::prelude::*;

verus! {

/// An opaque handle for an entity. It carries no payload; component
/// values live in the storages, keyed by this identifier.
#[derive(Clone, Copy, Debug, Hash, PartialEq, Eq, Structural)]
pub struct EntityId {
    pub id: u64,
}

/// Issues fresh entity identifiers and records the live ones.
#[derive(Debug)]
pub struct Registry {
    next_id: u64,
    live: Vec<u64>,
}

impl Registry {
    /// The live identifiers, in creation order.
    pub closed spec fn live(self) -> Seq<u64> {
        self.live@
    }

    /// The identifier the next creation will issue.
    pub closed spec fn spec_next(self) -> u64 {
        self.next_id
    }

    /// Whether `id` is live.
    pub open spec fn is_live(self, id: u64) -> bool {
        self.live().contains(id)
    }

    /// Live identifiers are unique and below the issue counter.
    pub open spec fn wf(self) -> bool {
        &&& forall|i: int, j: int|
            0 <= i < j < self.live().len() ==> self.live()[i] != self.live()[j]
        &&& forall|i: int| 0 <= i < self.live().len() ==> self.live()[i] < self.spec_next()
    }

    pub fn new() -> (r: Self)
        ensures
            r.wf(),
            r.live().len() == 0,
            r.spec_next() == 0,
    {
        Registry { next_id: 0, live: Vec::new() }
    }

    /// Whether another identifier can still be issued.
    pub fn can_create(&self) -> (r: bool)
        ensures
            r == (self.spec_next() < u64::MAX),
    {
        self.next_id < u64::MAX
    }

    /// Issue a fresh identifier, which was never live before and is live
    /// now. All previously live identifiers stay live.
    pub fn create(&mut self) -> (r: EntityId)
        requires
            old(self).wf(),
            old(self).spec_next() < u64::MAX,
        ensures
            final(self).wf(),
            r.id == old(self).spec_next(),
            !old(self).is_live(r.id),
            final(self).is_live(r.id),
            final(self).live() == old(self).live().push(r.id),
            final(self).spec_next() == old(self).spec_next() + 1,
            forall|e: u64| e != r.id ==> final(self).is_live(e) == old(self).is_live(e),
    {
        let id = self.next_id;
        self.next_id = self.next_id + 1;
        self.live.push(id);
        proof {
            let s0 = old(self).live@;
            let s1 = self.live@;
            assert(old(self).live() == s0);
            assert(self.live() == s1);
            assert(old(self).spec_next() == id);
            assert(s1 == s0.push(id));
            assert(s1[s1.len() - 1] == id);
            assert(forall|w: int| 0 <= w < s0.len() ==> s1[w] == s0[w]);
            assert(forall|w: int| 0 <= w < s0.len() ==> s0[w] != id);
            assert(!old(self).is_live(id)) by {
                if s0.contains(id) {
                    let w = choose|w: int| 0 <= w < s0.len() && s0[w] == id;
                }
            }
            assert forall|a: int, b: int| 0 <= a < b < s1.len() implies s1[a] != s1[b] by {
                if b < s0.len() {
                } else {
                    assert(s1[b] == id);
                    assert(s1[a] == s0[a]);
                }
            }
            assert(self.is_live(id)) by {
                assert(s1[s1.len() - 1] == id);
            }
            assert forall|e: u64| e != id implies self.is_live(e) == old(self).is_live(e) by {
                if s0.contains(e) {
                    let w = choose|w: int| 0 <= w < s0.len() && s0[w] == e;
                    assert(s1[w] == e);
                } else if s1.contains(e) {
                    let w = choose|w: int| 0 <= w < s1.len() && s1[w] == e;
                    assert(w < s0.len());
                    assert(s0[w] == e);
                }
            }
        }
        EntityId { id }
    }

    /// Retire `id`. Idempotent: retiring an identifier that is not live
    /// leaves the registry unchanged.
    pub fn destroy(&mut self, id: EntityId)
        requires
            old(self).wf(),
        ensures
            final(self).wf(),
            !final(self).is_live(id.id),
            forall|e: u64| e != id.id ==> final(self).is_live(e) == old(self).is_live(e),
            final(self).spec_next() == old(self).spec_next(),
            !old(self).is_live(id.id) ==> *final(self) == *old(self),
    {
        let ghost s0 = self.live@;
        let n = self.live.len();
        let mut i: usize = 0;
        while i < n
            invariant
                n == self.live@.len(),
                0 <= i <= n,
                forall|j: int| 0 <= j < i ==> self.live@[j] != id.id,
                self.live@ == s0,
                s0 == old(self).live@,
                *self == *old(self),
                old(self).wf(),
                self.next_id == old(self).spec_next(),
            decreases n - i,
        {
            if self.live[i] == id.id {
                proof {
                    assert(s0[i as int] == id.id);
                }
                self.live.remove(i);
                proof {
                    let r = self.live@;
                    assert(old(self).live() == s0);
                    assert(self.live() == r);
                    assert(old(self).spec_next() == self.next_id);
                    assert(r == s0.remove(i as int));
                    assert(forall|a: int| 0 <= a < i ==> r[a] == s0[a]);
                    assert(forall|a: int| i <= a < r.len() ==> r[a] == s0[a + 1]);
                    assert forall|a: int, b: int| 0 <= a < b < r.len() implies r[a] != r[b] by {
                        if b < i {
                        } else if a < i {
                            assert(r[a] == s0[a] && r[b] == s0[b + 1]);
                        } else {
                            assert(r[a] == s0[a + 1] && r[b] == s0[b + 1]);
                        }
                    }
                    assert(forall|a: int| 0 <= a < r.len() ==> r[a] < self.next_id);
                    assert forall|a: int| 0 <= a < r.len() implies r[a] != id.id by {
                        if a < i {
                        } else {
                            assert(r[a] == s0[a + 1]);
                            assert(a + 1 != i);
                        }
                    }
                    assert(!self.is_live(id.id)) by {
                        if r.contains(id.id) {
                            let w = choose|w: int| 0 <= w < r.len() && r[w] == id.id;
                        }
                    }
                    assert forall|e: u64| e != id.id implies self.is_live(e) == s0.contains(e) by {
                        if r.contains(e) {
                            let w = choose|w: int| 0 <= w < r.len() && r[w] == e;
                            if w < i {
                                assert(s0[w] == e);
                            } else {
                                assert(s0[w + 1] == e);
                            }
                        } else if s0.contains(e) {
                            let w = choose|w: int| 0 <= w < s0.len() && s0[w] == e;
                            if w < i {
                                assert(r[w] == e);
                            } else {
                                assert(w != i);
                                assert(r[w - 1] == e);
                            }
                        }
                    }
                }
                return ;
            }
            i = i + 1;
        }
        proof {
            assert(old(self).live() == s0);
            assert(self.live() == s0);
            assert(!self.live@.contains(id.id)) by {
                if self.live@.contains(id.id) {
                    let w = choose|w: int| 0 <= w < self.live@.len() && self.live@[w] == id.id;
                }
            }
        }
    }

    /// Whether `id` is live.
    pub fn is_alive(&self, id: EntityId) -> (r: bool)
        ensures
            r == self.is_live(id.id),
    {
        let n = self.live.len();
        let mut i: usize = 0;
        while i < n
            invariant
                n == self.live@.len(),
                0 <= i <= n,
                forall|j: int| 0 <= j < i ==> self.live@[j] != id.id,
            decreases n - i,
        {
            if self.live[i] == id.id {
                return true;
            }
            i = i + 1;
        }
        proof {
            if self.live@.contains(id.id) {
                let w = choose|w: int| 0 <= w < self.live@.len() && self.live@[w] == id.id;
            }
        }
        false
    }

    /// The number of live entities.
    pub fn live_count(&self) -> (r: usize)
        ensures
            r == self.live().len(),
    {
        self.live.len()
    }

    /// The live identifier at iteration index `i`.
    pub fn live_at(&self, i: usize) -> (r: u64)
        requires
            i < self.live().len(),
        ensures
            r == self.live()[i as int],
    {
        self.live[i]
    }
}

} // verus!
