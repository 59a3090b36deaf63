//! Bounded work-stealing deque: the owner pushes and pops the bottom, thieves
//! steal from the top.
//!
//! The capacity is fixed. A full deque is a scheduling event, not an error: the
//! value is handed back, and the scheduler has somewhere else to put it.
use vstd::arithmetic::power2::{lemma2_to64, lemma_pow2_unfold, pow2};
use vstd::prelude::*;

verus! {

/// A ring of slots. The live ones run from `top`, wrapping round; every other
/// slot is empty.
pub struct Deque<T> {
    /// The slot a thief will take from.
    top: usize,
    /// How many slots are live.
    count: usize,
    slots: Vec<Option<T>>,
}

/// `cap` is the least power of two that is at least two and at least `n`.
pub open spec fn is_ring_size(cap: nat, n: nat) -> bool {
    &&& exists|k: nat| cap == #[trigger] pow2(k)
    &&& cap >= 2
    &&& cap >= n
    &&& cap == 2 || cap < 2 * n
}

/// The size of the ring for at least `n` values.
fn ring_size(n: usize) -> (cap: usize)
    requires
        n <= usize::MAX / 2 + 1,
    ensures
        is_ring_size(cap as nat, n as nat),
{
    let mut cap: usize = 2;
    let ghost mut k: nat = 1;
    proof {
        lemma2_to64();
    }
    while cap < n
        invariant
            n <= usize::MAX / 2 + 1,
            cap == pow2(k),
            cap >= 2,
            cap == 2 || cap < 2 * n,
        decreases usize::MAX - cap,
    {
        proof {
            lemma_pow2_unfold(k + 1);
            k = k + 1;
        }
        cap = cap * 2;
    }
    cap
}

/// Where the `i`-th slot from `top` on is, in a ring of `n`.
pub open spec fn ring_index(top: int, i: int, n: int) -> int {
    if top + i < n {
        top + i
    } else {
        top + i - n
    }
}

/// What a push leaves, with room for `room` values. A full queue takes nothing in.
pub open spec fn pushed<T>(queue: Seq<T>, room: nat, value: T) -> Seq<T> {
    if queue.len() < room {
        queue.push(value)
    } else {
        queue
    }
}

/// What a pop hands out, and what it leaves: the newest goes.
pub open spec fn popped<T>(queue: Seq<T>) -> (Option<T>, Seq<T>) {
    if queue.len() > 0 {
        (Some(queue.last()), queue.drop_last())
    } else {
        (None, queue)
    }
}

/// What a steal hands out, and what it leaves: the oldest goes.
pub open spec fn stolen<T>(queue: Seq<T>) -> (Option<T>, Seq<T>) {
    if queue.len() > 0 {
        (Some(queue.first()), queue.drop_first())
    } else {
        (None, queue)
    }
}

impl<T> Deque<T> {
    spec fn index(self, i: int) -> int {
        ring_index(self.top as int, i, self.slots@.len() as int)
    }

    /// The queued values, from the top to the bottom.
    pub closed spec fn view(&self) -> Seq<T> {
        Seq::new(self.count as nat, |i: int| self.slots@[self.index(i)]->0)
    }

    /// How many values there is room for.
    pub closed spec fn room(&self) -> nat {
        self.slots@.len()
    }

    /// The live slots hold the values, and no other slot holds any.
    pub closed spec fn wf(&self) -> bool {
        &&& self.slots@.len() >= 2
        &&& self.top < self.slots@.len()
        &&& self.count <= self.slots@.len()
        &&& forall|i: int|
            0 <= i < self.slots@.len() ==> (#[trigger] self.slots@[self.index(i)] is Some
                <==> i < self.count)
    }

    /// Room for at least `cap` values: the least power of two that is enough,
    /// and at least two.
    pub fn with_capacity(cap: usize) -> (d: Self)
        requires
            cap <= usize::MAX / 2 + 1,
        ensures
            d.wf(),
            d@.len() == 0,
            is_ring_size(d.room(), cap as nat),
    {
        let size = ring_size(cap);
        let mut slots: Vec<Option<T>> = Vec::with_capacity(size);
        let mut i: usize = 0;
        while i < size
            invariant
                i <= size,
                slots@.len() == i,
                forall|j: int| 0 <= j < i ==> slots@[j] is None,
            decreases size - i,
        {
            slots.push(None);
            i = i + 1;
        }
        let d = Deque { top: 0, count: 0, slots };
        assert(d@ =~= Seq::empty());
        d
    }

    /// How many values there is room for.
    pub fn capacity(&self) -> (n: usize)
        ensures
            n == self.room(),
    {
        self.slots.len()
    }

    /// Number of queued values.
    pub fn len(&self) -> (n: usize)
        ensures
            n == self@.len(),
    {
        self.count
    }

    pub fn is_empty(&self) -> (b: bool)
        ensures
            b == (self@.len() == 0),
    {
        self.count == 0
    }

    /// Push onto the bottom. A full deque hands the value back, so that the
    /// caller can spill it.
    pub fn push(&mut self, value: T) -> (r: Result<(), T>)
        requires
            old(self).wf(),
        ensures
            final(self).wf(),
            final(self).room() == old(self).room(),
            r == if old(self)@.len() < old(self).room() {
                Ok::<(), T>(())
            } else {
                Err(value)
            },
            final(self)@ == pushed(old(self)@, old(self).room(), value),
    {
        let n = self.slots.len();
        if self.count >= n {
            return Err(value);
        }
        let free = n - self.top;
        let at = if self.count < free {
            self.top + self.count
        } else {
            self.count - free
        };
        assert(at == self.index(self.count as int));
        let ghost before = *self;
        self.slots.set(at, Some(value));
        self.count = self.count + 1;
        proof {
            assert forall|i: int| 0 <= i < self.slots@.len() implies (
            #[trigger] self.slots@[self.index(i)] is Some <==> i < self.count) by {
                assert(self.index(i) == before.index(i));
                assert(before.slots@[before.index(i)] is Some <==> i < before.count);
            }
            assert(self@ =~= before@.push(value));
        }
        Ok(())
    }

    /// Pop from the bottom: the owner's most recent work.
    pub fn pop(&mut self) -> (r: Option<T>)
        requires
            old(self).wf(),
        ensures
            final(self).wf(),
            final(self).room() == old(self).room(),
            r == popped(old(self)@).0,
            final(self)@ == popped(old(self)@).1,
    {
        if self.count == 0 {
            return None;
        }
        let n = self.slots.len();
        let last = self.count - 1;
        let free = n - self.top;
        let at = if last < free {
            self.top + last
        } else {
            last - free
        };
        let ghost before = *self;
        assert(at == self.index(last as int));
        let mut value: Option<T> = None;
        assert(self.slots@[before.index(last as int)] is Some);
        core::mem::swap(&mut value, &mut self.slots[at]);
        self.count = last;
        proof {
            assert forall|i: int| 0 <= i < self.slots@.len() implies (
            #[trigger] self.slots@[self.index(i)] is Some <==> i < self.count) by {
                assert(self.index(i) == before.index(i));
                assert(before.slots@[before.index(i)] is Some <==> i < before.count);
            }
            assert(self@ =~= before@.drop_last());
        }
        value
    }

    /// Steal from the top: the oldest work.
    pub fn steal(&mut self) -> (r: Option<T>)
        requires
            old(self).wf(),
        ensures
            final(self).wf(),
            final(self).room() == old(self).room(),
            r == stolen(old(self)@).0,
            final(self)@ == stolen(old(self)@).1,
    {
        if self.count == 0 {
            return None;
        }
        let n = self.slots.len();
        let at = self.top;
        let ghost before = *self;
        assert(at == self.index(0));
        assert(self.slots@[before.index(0)] is Some);
        let mut value: Option<T> = None;
        core::mem::swap(&mut value, &mut self.slots[at]);
        self.top = if at + 1 < n {
            at + 1
        } else {
            0
        };
        self.count = self.count - 1;
        proof {
            assert forall|i: int| 0 <= i < self.slots@.len() implies (
            #[trigger] self.slots@[self.index(i)] is Some <==> i < self.count) by {
                if i + 1 < n {
                    assert(self.index(i) == before.index(i + 1));
                    assert(before.slots@[before.index(i + 1)] is Some <==> i + 1 < before.count);
                } else {
                    assert(self.index(i) == at);
                }
            }
            assert forall|i: int| 0 <= i < self.count implies self@[i]
                == before@.drop_first()[i] by {
                assert(self.index(i) == before.index(i + 1));
                assert(before@.drop_first()[i] == before@[i + 1]);
            }
            assert(self@ =~= before@.drop_first());
        }
        value
    }
}

} // verus!
