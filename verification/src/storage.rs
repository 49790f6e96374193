//! Per-component-type storage: an association from entity identifier to
//! component value, holding at most one value per entity. Absent entries
//! are the optional-absence case, never an error.

use vstd::prelude::*;

use crate::kv::{kv_get, kv_unique};
use crate::kv::{
    lemma_kv_get_absent, lemma_kv_get_present, lemma_kv_get_push, lemma_kv_get_remove,
    lemma_kv_get_update, lemma_kv_unique_push, lemma_kv_unique_remove, lemma_kv_unique_update,
};

verus! {

/// A container of component values keyed by entity identifier, in
/// storage-defined order with unique keys.
#[derive(Debug)]
pub struct Storage<T> {
    entries: Vec<(u64, T)>,
}

impl<T> Storage<T> {
    /// The pairs the storage holds, in storage order.
    pub closed spec fn entries(self) -> Seq<(u64, T)> {
        self.entries@
    }

    /// Each entity has at most one value.
    pub open spec fn wf(self) -> bool {
        kv_unique(self.entries())
    }

    /// The value stored for entity `id`, when any.
    pub open spec fn spec_get(self, id: u64) -> Option<T> {
        kv_get(self.entries(), id)
    }

    /// Whether entity `id` has a value here.
    pub open spec fn spec_contains(self, id: u64) -> bool {
        self.spec_get(id) is Some
    }

    pub fn new() -> (s: Self)
        ensures
            s.wf(),
            s.entries().len() == 0,
            forall|id: u64| !s.spec_contains(id),
    {
        let s = Storage { entries: Vec::new() };
        proof {
            assert forall|id: u64| !s.spec_contains(id) by {
                lemma_kv_get_absent(s.entries@, id);
            }
        }
        s
    }

    /// The stored value for entity `id`, when any.
    pub fn get(&self, id: u64) -> (r: Option<&T>)
        requires
            self.wf(),
        ensures
            match r {
                Some(v) => self.spec_get(id) == Some(*v),
                None => self.spec_get(id) is None,
            },
    {
        let n = self.entries.len();
        let mut i: usize = 0;
        while i < n
            invariant
                self.wf(),
                n == self.entries@.len(),
                0 <= i <= n,
                forall|j: int| 0 <= j < i ==> self.entries@[j].0 != id,
            decreases n - i,
        {
            if self.entries[i].0 == id {
                proof {
                    lemma_kv_get_present(self.entries@, i as int);
                }
                return Some(&self.entries[i].1);
            }
            i = i + 1;
        }
        proof {
            lemma_kv_get_absent(self.entries@, id);
        }
        None
    }

    /// Whether entity `id` has a value here.
    pub fn contains(&self, id: u64) -> (r: bool)
        requires
            self.wf(),
        ensures
            r == self.spec_contains(id),
    {
        self.get(id).is_some()
    }

    /// Store `value` for entity `id`, replacing a previous value. Either
    /// an existing pair is overwritten in place or a new pair is appended.
    pub fn insert(&mut self, id: u64, value: T)
        requires
            old(self).wf(),
        ensures
            final(self).wf(),
            final(self).spec_get(id) == Some(value),
            forall|e: u64| e != id ==> final(self).spec_get(e) == old(self).spec_get(e),
            if old(self).spec_contains(id) {
                exists|i: int|
                    0 <= i < old(self).entries().len() && old(self).entries()[i].0 == id
                        && final(self).entries() == old(self).entries().update(i, (id, value))
            } else {
                final(self).entries() == old(self).entries().push((id, value))
            },
    {
        let ghost s0 = self.entries@;
        let n = self.entries.len();
        let mut i: usize = 0;
        while i < n
            invariant
                n == self.entries@.len(),
                0 <= i <= n,
                forall|j: int| 0 <= j < i ==> self.entries@[j].0 != id,
                self.entries@ == s0,
                s0 == old(self).entries@,
                kv_unique(s0),
            decreases n - i,
        {
            if self.entries[i].0 == id {
                proof {
                    lemma_kv_get_present(s0, i as int);
                }
                self.entries[i] = (id, value);
                proof {
                    lemma_kv_unique_update(s0, i as int, id, value);
                    assert forall|e: u64|
                        kv_get(self.entries@, e) == (if e == id {
                            Some(value)
                        } else {
                            kv_get(s0, e)
                        }) by {
                        lemma_kv_get_update(s0, i as int, id, value, e);
                    }
                }
                return ;
            }
            i = i + 1;
        }
        proof {
            lemma_kv_get_absent(s0, id);
        }
        self.entries.push((id, value));
        proof {
            lemma_kv_unique_push(s0, id, value);
            assert forall|e: u64|
                kv_get(self.entries@, e) == (if e == id {
                    Some(value)
                } else {
                    kv_get(s0, e)
                }) by {
                lemma_kv_get_push(s0, id, value, e);
            }
        }
    }

    /// Remove and return the value stored for entity `id`, when any.
    pub fn remove(&mut self, id: u64) -> (r: Option<T>)
        requires
            old(self).wf(),
        ensures
            final(self).wf(),
            r == old(self).spec_get(id),
            final(self).spec_get(id) is None,
            forall|e: u64| e != id ==> final(self).spec_get(e) == old(self).spec_get(e),
            if old(self).spec_contains(id) {
                exists|i: int|
                    0 <= i < old(self).entries().len() && old(self).entries()[i].0 == id
                        && final(self).entries() == old(self).entries().remove(i)
            } else {
                *final(self) == *old(self)
            },
    {
        let ghost s0 = self.entries@;
        let n = self.entries.len();
        let mut i: usize = 0;
        while i < n
            invariant
                n == self.entries@.len(),
                0 <= i <= n,
                forall|j: int| 0 <= j < i ==> self.entries@[j].0 != id,
                self.entries@ == s0,
                s0 == old(self).entries@,
                *self == *old(self),
                kv_unique(s0),
            decreases n - i,
        {
            if self.entries[i].0 == id {
                proof {
                    lemma_kv_get_present(s0, i as int);
                }
                let pair = self.entries.remove(i);
                proof {
                    lemma_kv_unique_remove(s0, i as int);
                    assert forall|e: u64|
                        kv_get(self.entries@, e) == (if e == id {
                            None::<T>
                        } else {
                            kv_get(s0, e)
                        }) by {
                        lemma_kv_get_remove(s0, i as int, e);
                    }
                }
                return Some(pair.1);
            }
            i = i + 1;
        }
        proof {
            lemma_kv_get_absent(s0, id);
        }
        None
    }

    /// The number of entities that have a value here.
    pub fn len(&self) -> (r: usize)
        ensures
            r == self.entries().len(),
    {
        self.entries.len()
    }

    /// The entity key of the pair at storage index `i`.
    pub fn key_at(&self, i: usize) -> (r: u64)
        requires
            i < self.entries().len(),
        ensures
            r == self.entries()[i as int].0,
    {
        self.entries[i].0
    }

    /// The component value of the pair at storage index `i`.
    pub fn value_at(&self, i: usize) -> (r: &T)
        requires
            i < self.entries().len(),
        ensures
            *r == self.entries()[i as int].1,
    {
        &self.entries[i].1
    }
}

} // verus!
