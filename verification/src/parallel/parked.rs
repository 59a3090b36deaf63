//! Tasks that are waiting on something, and the wakes that bring them back.
//!
//! A wake for a task that is not parked is remembered: a task on its way here
//! finds it, and is handed straight back instead of sleeping through it.
use std::collections::{BTreeMap, BTreeSet};
use vstd::prelude::*;

use crate::vocab::TaskId;

verus! {

/// Waiting tasks, plus wakes that arrived before their task did.
pub struct Parked<T> {
    tasks: BTreeMap<u64, T>,
    early_wakes: BTreeSet<u64>,
}

impl<T> Parked<T> {
    /// The waiting tasks, by id.
    pub closed spec fn view(&self) -> Map<u64, T> {
        self.tasks@
    }

    /// Ids woken while no task was parked under them.
    pub closed spec fn early(&self) -> Set<u64> {
        self.early_wakes@
    }

    pub fn new() -> (p: Self)
        ensures
            p@ == Map::<u64, T>::empty(),
            p.early() == Set::<u64>::empty(),
    {
        Parked { tasks: BTreeMap::new(), early_wakes: BTreeSet::new() }
    }

    /// Hold `task` until it is woken. Returns it straight back when a wake for
    /// `id` has already arrived; that wake is used up.
    pub fn park(&mut self, id: TaskId, task: T) -> (r: Option<T>)
        ensures
            old(self).early().contains(id.0) ==> {
                &&& r == Some(task)
                &&& final(self)@ == old(self)@
                &&& final(self).early() == old(self).early().remove(id.0)
            },
            !old(self).early().contains(id.0) ==> {
                &&& r is None
                &&& final(self)@ == old(self)@.insert(id.0, task)
                &&& final(self).early() == old(self).early()
            },
    {
        broadcast use vstd::std_specs::btree::group_btree_axioms;
        broadcast use vstd::laws_cmp::group_laws_cmp;

        let raced = self.early_wakes.remove(&id.0);
        if raced {
            return Some(task);
        }
        self.tasks.insert(id.0, task);
        None
    }

    /// Take the task waiting under `id`, if any. When nothing is parked the wake
    /// is remembered, so a task that is on its way here does not miss it.
    pub fn wake(&mut self, id: TaskId) -> (r: Option<T>)
        ensures
            old(self)@.contains_key(id.0) ==> {
                &&& r == Some(old(self)@[id.0])
                &&& final(self)@ == old(self)@.remove(id.0)
                &&& final(self).early() == old(self).early()
            },
            !old(self)@.contains_key(id.0) ==> {
                &&& r is None
                &&& final(self)@ == old(self)@
                &&& final(self).early() == old(self).early().insert(id.0)
            },
    {
        broadcast use vstd::std_specs::btree::group_btree_axioms;
        broadcast use vstd::laws_cmp::group_laws_cmp;

        let task = self.tasks.remove(&id.0);
        if task.is_none() {
            self.early_wakes.insert(id.0);
        }
        task
    }

    /// How many tasks are waiting.
    pub fn len(&self) -> (n: usize)
        ensures
            n == self@.len(),
    {
        broadcast use vstd::std_specs::btree::group_btree_axioms;
        broadcast use vstd::laws_cmp::group_laws_cmp;

        self.tasks.len()
    }

    /// Number of remembered wakes still waiting to be claimed.
    pub fn early_wake_count(&self) -> (n: usize)
        ensures
            n == self.early().len(),
    {
        broadcast use vstd::std_specs::btree::group_btree_axioms;
        broadcast use vstd::laws_cmp::group_laws_cmp;

        self.early_wakes.len()
    }
}

} // verus!
