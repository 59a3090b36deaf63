//! Cluster-wide overflow queue: where an agent without a deque of its own
//! submits work, and where a full deque spills.
use std::collections::VecDeque;
use vstd::prelude::*;

verus! {

/// A first-in, first-out queue.
pub struct Injector<T> {
    queue: VecDeque<T>,
}

impl<T> Injector<T> {
    /// The queued values, the oldest first.
    pub closed spec fn view(&self) -> Seq<T> {
        self.queue@
    }

    pub fn new() -> (q: Self)
        ensures
            q@.len() == 0,
    {
        Injector { queue: VecDeque::new() }
    }

    pub fn push(&mut self, value: T)
        ensures
            final(self)@ == old(self)@.push(value),
    {
        self.queue.push_back(value);
    }

    pub fn pop(&mut self) -> (r: Option<T>)
        ensures
            old(self)@.len() == 0 ==> r is None && final(self)@ == old(self)@,
            old(self)@.len() > 0 ==> r == Some(old(self)@.first()) && final(self)@
                == old(self)@.drop_first(),
    {
        let r = self.queue.pop_front();
        assert(old(self)@.len() > 0 ==> self@ =~= old(self)@.drop_first());
        r
    }

    pub fn is_empty(&self) -> (b: bool)
        ensures
            b == (self@.len() == 0),
    {
        self.queue.len() == 0
    }
}

} // verus!
