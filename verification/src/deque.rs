//! A bounded double-ended queue laid out as a ring of slots.
//!
//! Values enter at the back and leave at the front. The ring never grows: a
//! push onto a full ring hands the value back. The back carries, next to its
//! offset, a piece of state that belongs to whoever pushes.

use vstd::prelude::*;

verus! {

/// The one way a push can fail.
#[derive(Debug, Clone, Copy)]
pub enum Error<T> {
    /// Every slot is taken; the value comes back to the caller.
    Full(T),
}

/// What the front of the ring keeps: the slot that is popped next.
#[derive(Debug, Clone, Copy)]
pub struct FrontGuardInner {
    offset: usize,
}

/// What the back of the ring keeps: the slot that is filled next, and the
/// state of the pushing side.
#[derive(Debug)]
pub struct BackGuardInner<S> {
    offset: usize,
    pub inner: S,
}

/// A ring of `capacity` slots holding between zero and `capacity` values.
#[derive(Debug)]
pub struct Queue<T, S> {
    capacity: usize,
    data: Vec<Option<T>>,
    size: usize,
    back: BackGuardInner<S>,
    front: FrontGuardInner,
}

/// The slot that follows `offset` in a ring of `capacity` slots.
spec fn next_slot(offset: int, capacity: int) -> int {
    if offset + 1 == capacity {
        0
    } else {
        offset + 1
    }
}

/// The slot that precedes `offset` in a ring of `capacity` slots.
spec fn prev_slot(offset: int, capacity: int) -> int {
    if offset == 0 {
        capacity - 1
    } else {
        offset - 1
    }
}

/// The slot `k` steps after `start` in a ring of `capacity` slots, for
/// `start` in the ring and `k` at most `capacity`.
spec fn slot_at(start: int, k: int, capacity: int) -> int {
    if start + k >= capacity {
        start + k - capacity
    } else {
        start + k
    }
}

/// How many steps after `start` the slot `i` lies.
spec fn steps_from(start: int, i: int, capacity: int) -> int {
    if i >= start {
        i - start
    } else {
        i - start + capacity
    }
}

/// The offset after `offset`, counted modulo `capacity`.
fn advance(offset: usize, capacity: usize) -> (r: usize)
    requires
        offset < capacity,
    ensures
        r == next_slot(offset as int, capacity as int),
        r < capacity,
{
    proof {
        if offset + 1 == capacity {
            vstd::arithmetic::div_mod::lemma_mod_self_0(capacity as int);
        } else {
            vstd::arithmetic::div_mod::lemma_small_mod((offset + 1) as nat, capacity as nat);
        }
    }
    (offset + 1) % capacity
}

/// The offset before `offset`, counted modulo `capacity`.
fn retreat(offset: usize, capacity: usize) -> (r: usize)
    requires
        offset < capacity,
    ensures
        r == prev_slot(offset as int, capacity as int),
        r < capacity,
{
    if offset == 0 {
        capacity - 1
    } else {
        offset - 1
    }
}

impl<T, S> Queue<T, S> {
    /// Whether the ring is in order: the offsets lie in the ring, the back is
    /// as many steps after the front as there are values, and exactly the
    /// slots between the two are filled.
    pub closed spec fn wf(&self) -> bool {
        &&& self.capacity > 0
        &&& self.data.len() == self.capacity
        &&& self.size <= self.capacity
        &&& self.front.offset < self.capacity
        &&& self.back.offset < self.capacity
        &&& self.back.offset == slot_at(
            self.front.offset as int,
            self.size as int,
            self.capacity as int,
        )
        &&& forall|i: int|
            0 <= i < self.capacity ==> ((#[trigger] self.data[i]) is Some <==> steps_from(
                self.front.offset as int,
                i,
                self.capacity as int,
            ) < self.size)
    }

    /// The values in the ring, the one that leaves next first.
    pub closed spec fn view(&self) -> Seq<T> {
        Seq::new(
            self.size as nat,
            |k: int| self.data[slot_at(self.front.offset as int, k, self.capacity as int)]->0,
        )
    }

    /// The number of slots.
    pub closed spec fn spec_capacity(&self) -> nat {
        self.capacity as nat
    }

    /// The state kept at the back of the ring.
    pub closed spec fn back(&self) -> S {
        self.back.inner
    }

    /// The state kept at the front of the ring.
    pub closed spec fn front(&self) -> FrontGuardInner {
        self.front
    }

    /// An empty ring of `capacity` slots, with the default state at its back.
    pub fn with_capacity(capacity: usize) -> (q: Queue<T, S>) where S: Default
        requires
            capacity > 0,
        ensures
            q.wf(),
            q@ == Seq::<T>::empty(),
            q.spec_capacity() == capacity,
            call_ensures(S::default, (), q.back()),
    {
        let mut data: Vec<Option<T>> = Vec::with_capacity(capacity);
        let mut filled: usize = 0;
        while filled < capacity
            invariant
                filled <= capacity,
                data.len() == filled,
                forall|i: int| 0 <= i < filled ==> (#[trigger] data[i]) is None,
            decreases capacity - filled,
        {
            data.push(None);
            filled += 1;
        }
        let q = Queue {
            capacity,
            data,
            size: 0,
            back: BackGuardInner { offset: 0, inner: S::default() },
            front: FrontGuardInner { offset: 0 },
        };
        assert(q@ =~= Seq::<T>::empty());
        q
    }

    /// The number of slots.
    pub fn capacity(&self) -> (r: usize)
        ensures
            r == self.spec_capacity(),
    {
        self.capacity
    }

    /// The number of values held.
    pub fn size(&self) -> (r: usize)
        ensures
            r == self@.len(),
    {
        self.size
    }

    /// Puts `elem` behind every value held. A full ring takes nothing and
    /// hands `elem` back. The flag that comes with success says whether the
    /// ring was empty before, which is when a sleeping reader has to be woken.
    pub fn push_back(&mut self, elem: T) -> (r: Result<bool, Error<T>>)
        requires
            old(self).wf(),
        ensures
            final(self).wf(),
            final(self).spec_capacity() == old(self).spec_capacity(),
            final(self).back() == old(self).back(),
            old(self)@.len() < old(self).spec_capacity() ==> r == Ok::<bool, Error<T>>(
                old(self)@.len() == 0,
            ) && final(self)@ == old(self)@.push(elem),
            old(self)@.len() >= old(self).spec_capacity() ==> r == Err::<bool, Error<T>>(
                Error::Full(elem),
            ) && final(self)@ == old(self)@,
    {
        let cur_size = self.size;
        if cur_size == self.capacity {
            return Err(Error::Full(elem));
        }
        let slot = self.back.offset;
        let ghost before = *self;
        self.data.set(slot, Some(elem));
        self.back.offset = advance(slot, self.capacity);
        self.size = cur_size + 1;
        proof {
            let f = before.front.offset as int;
            let c = before.capacity as int;
            assert(steps_from(f, slot as int, c) == cur_size);
            assert forall|i: int| 0 <= i < self.capacity implies ((#[trigger] self.data[i]) is Some
                <==> steps_from(f, i, c) < self.size) by {
                if i != slot {
                    assert(self.data[i] == before.data[i]);
                }
            }
            assert(self@ =~= before@.push(elem)) by {
                assert forall|k: int| 0 <= k < cur_size implies slot_at(f, k, c) != slot by {
                    assert(steps_from(f, slot_at(f, k, c), c) == k);
                }
            }
        }
        Ok(cur_size == 0)
    }

    /// Takes the value at the front. With nothing held there is nothing to
    /// take: a caller that may find the ring empty waits until it is not, or
    /// uses [`Queue::try_pop_front`].
    pub fn pop_front(&mut self) -> (r: T)
        requires
            old(self).wf(),
            old(self)@.len() > 0,
        ensures
            final(self).wf(),
            final(self).spec_capacity() == old(self).spec_capacity(),
            final(self).back() == old(self).back(),
            r == old(self)@[0],
            final(self)@ == old(self)@.drop_first(),
    {
        let slot = self.front.offset;
        let ghost before = *self;
        assert(steps_from(slot as int, slot as int, self.capacity as int) == 0);
        let elem = self.data[slot].take();
        self.front.offset = advance(slot, self.capacity);
        self.size = self.size - 1;
        proof {
            let f = before.front.offset as int;
            let g = self.front.offset as int;
            let c = before.capacity as int;
            assert forall|i: int| 0 <= i < self.capacity implies ((#[trigger] self.data[i]) is Some
                <==> steps_from(g, i, c) < self.size) by {
                if i != slot {
                    assert(self.data[i] == before.data[i]);
                }
            }
            assert(self@ =~= before@.drop_first()) by {
                assert forall|k: int| 0 <= k < self.size implies slot_at(g, k, c) == slot_at(
                    f,
                    k + 1,
                    c,
                ) && slot_at(g, k, c) != slot by {
                    assert(steps_from(f, slot_at(f, k + 1, c), c) == k + 1);
                }
            }
            assert(before@[0] == before.data[slot_at(f, 0, c)]->0);
        }
        elem.unwrap()
    }

    /// Takes the value at the front if there is one.
    pub fn try_pop_front(&mut self) -> (r: Option<T>)
        requires
            old(self).wf(),
        ensures
            final(self).wf(),
            final(self).spec_capacity() == old(self).spec_capacity(),
            final(self).back() == old(self).back(),
            old(self)@.len() == 0 ==> r.is_none() && final(self)@ == old(self)@,
            old(self)@.len() > 0 ==> r == Some(old(self)@[0]) && final(self)@ == old(
                self,
            )@.drop_first(),
    {
        if self.size == 0 {
            None
        } else {
            Some(self.pop_front())
        }
    }

    /// Takes back the value pushed last if there is one, and never waits.
    pub fn pop_back_no_block(&mut self) -> (r: Option<T>)
        requires
            old(self).wf(),
        ensures
            final(self).wf(),
            final(self).spec_capacity() == old(self).spec_capacity(),
            final(self).back() == old(self).back(),
            old(self)@.len() == 0 ==> r.is_none() && final(self)@ == old(self)@,
            old(self)@.len() > 0 ==> r == Some(old(self)@.last()) && final(self)@ == old(
                self,
            )@.drop_last(),
    {
        if self.size == 0 {
            return None;
        }
        let ghost before = *self;
        let slot = retreat(self.back.offset, self.capacity);
        let ghost f = before.front.offset as int;
        let ghost c = before.capacity as int;
        assert(steps_from(f, slot as int, c) == self.size - 1);
        let elem = self.data[slot].take();
        self.back.offset = slot;
        self.size = self.size - 1;
        proof {
            assert forall|i: int| 0 <= i < self.capacity implies ((#[trigger] self.data[i]) is Some
                <==> steps_from(f, i, c) < self.size) by {
                if i != slot {
                    assert(self.data[i] == before.data[i]);
                }
            }
            assert(self@ =~= before@.drop_last()) by {
                assert forall|k: int| 0 <= k < self.size implies slot_at(f, k, c) != slot by {
                    assert(steps_from(f, slot_at(f, k, c), c) == k);
                }
            }
            assert(before@.last() == before.data[slot_at(f, before.size - 1, c)]->0);
        }
        elem
    }

    /// The state kept at the back, to read and to change. The values held
    /// are out of reach through it.
    pub fn lock_back(&mut self) -> (guard: &mut S)
        ensures
            *guard == old(self).back(),
            final(self).back() == *final(guard),
            final(self)@ == old(self)@,
            final(self).wf() == old(self).wf(),
            final(self).spec_capacity() == old(self).spec_capacity(),
    {
        &mut self.back.inner
    }

    /// The state kept at the front.
    pub fn lock_front(&self) -> (guard: &FrontGuardInner)
        ensures
            *guard == self.front(),
    {
        &self.front
    }

    /// A ring in order holds no more values than it has slots, and has a slot.
    pub proof fn lemma_bounded(&self)
        requires
            self.wf(),
        ensures
            self.spec_capacity() > 0,
            self@.len() <= self.spec_capacity(),
    {
    }
}

} // verus!
