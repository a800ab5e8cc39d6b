//! A slot arena that hands out aligned, non-null address words.
//!
//! An arena stands for the heap that nodes and value cells are allocated on.
//! An address is stable while its slot is occupied; a freed slot is reused by
//! a later allocation.

use vstd::prelude::*;

verus! {

/// The allocation could not be served: the arena has no slot left.
#[derive(Debug, Clone, Copy, PartialEq, Eq, Structural)]
pub struct AllocError;

/// Occupied and vacant slots, addressed by even, non-zero words.
pub struct Arena<T> {
    slots: Vec<Option<T>>,
    vacant: Vec<usize>,
}

/// The largest number of slots whose addresses all fit in a word.
pub open spec fn max_slots() -> int {
    (usize::MAX / 2) as int
}

/// The slot that an address word stands for.
pub open spec fn slot_of(address: usize) -> int {
    (address / 2) as int - 1
}

impl<T> Arena<T> {
    /// The occupied slots: each allocated address with what it holds.
    pub closed spec fn view(&self) -> Map<usize, T> {
        Map::new(
            |a: usize|
                a % 2 == 0 && a >= 2 && slot_of(a) < self.slots@.len()
                    && self.slots@[slot_of(a)] is Some,
            |a: usize| self.slots@[slot_of(a)]->0,
        )
    }

    /// Every slot has an address, and the vacant list names distinct empty
    /// slots.
    pub closed spec fn wf(&self) -> bool {
        &&& self.slots@.len() <= max_slots()
        &&& forall|j: int|
            0 <= j < self.vacant@.len() ==> 0 <= #[trigger] self.vacant@[j] < self.slots@.len()
                && self.slots@[self.vacant@[j] as int] is None
        &&& forall|i: int, j: int|
            0 <= i < j < self.vacant@.len() ==> self.vacant@[i] != self.vacant@[j]
    }

    /// How many further allocations can be served before one is released.
    pub closed spec fn spare(&self) -> nat {
        (self.vacant@.len() + max_slots() - self.slots@.len()) as nat
    }

    /// Every allocated address is aligned and is not the null word.
    pub proof fn lemma_allocated_aligned(&self)
        ensures
            forall|a: usize| #[trigger] self@.contains_key(a) ==> a % 2 == 0 && a != 0,
    {
    }

    /// An arena with nothing allocated.
    pub fn new() -> (arena: Self)
        ensures
            arena.wf(),
            arena@ == Map::<usize, T>::empty(),
            arena.spare() == max_slots(),
    {
        let arena = Arena { slots: Vec::new(), vacant: Vec::new() };
        assert(arena@ =~= Map::<usize, T>::empty());
        arena
    }

    /// Whether the next allocation fails.
    pub fn is_full(&self) -> (full: bool)
        requires
            self.wf(),
        ensures
            full == (self.spare() == 0),
    {
        self.vacant.len() == 0 && self.slots.len() == usize::MAX / 2
    }

    /// Whether `address` is allocated.
    pub fn contains(&self, address: usize) -> (allocated: bool)
        requires
            self.wf(),
        ensures
            allocated == self@.contains_key(address),
    {
        if address % 2 != 0 || address < 2 {
            return false;
        }
        let index: usize = address / 2 - 1;
        index < self.slots.len() && self.slots[index].is_some()
    }

    /// Stores `value` in a slot that was vacant and returns its address.
    /// Fails, changing nothing, exactly when no slot is spare.
    pub fn allocate(&mut self, value: T) -> (result: Result<usize, AllocError>)
        requires
            old(self).wf(),
        ensures
            final(self).wf(),
            result is Err <==> old(self).spare() == 0,
            result is Err ==> *final(self) == *old(self),
            result is Ok ==> {
                let address = result->Ok_0;
                &&& !old(self)@.contains_key(address)
                &&& address % 2 == 0
                &&& address != 0
                &&& final(self)@ == old(self)@.insert(address, value)
                &&& final(self).spare() == old(self).spare() - 1
            },
    {
        let index: usize;
        if self.vacant.len() > 0 {
            index = self.vacant.pop().unwrap();
            self.slots.set(index, Some(value));
        } else if self.slots.len() < usize::MAX / 2 {
            index = self.slots.len();
            self.slots.push(Some(value));
        } else {
            return Err(AllocError);
        }
        let address: usize = 2 * index + 2;
        assert(slot_of(address) == index);
        assert(final(self)@ =~= old(self)@.insert(address, value)) by {
            assert forall|a: usize| a % 2 == 0 && a >= 2 && a != address implies slot_of(a)
                != index by {}
        }
        Ok(address)
    }

    /// Empties the slot at `address` and returns what it held.
    pub fn release(&mut self, address: usize) -> (value: T)
        requires
            old(self).wf(),
            old(self)@.contains_key(address),
        ensures
            final(self).wf(),
            final(self)@ == old(self)@.remove(address),
            value == old(self)@[address],
            final(self).spare() == old(self).spare() + 1,
    {
        let index: usize = address / 2 - 1;
        let mut taken: Option<T> = None;
        core::mem::swap(&mut self.slots[index], &mut taken);
        self.vacant.push(index);
        assert(final(self)@ =~= old(self)@.remove(address)) by {
            assert forall|a: usize| a % 2 == 0 && a >= 2 && a != address implies slot_of(a)
                != index by {}
        }
        taken.unwrap()
    }

    /// What the slot at `address` holds.
    pub fn get(&self, address: usize) -> (value: &T)
        requires
            self.wf(),
            self@.contains_key(address),
        ensures
            *value == self@[address],
    {
        let index: usize = address / 2 - 1;
        self.slots[index].as_ref().unwrap()
    }

    /// Overwrites what the slot at `address` holds.
    pub fn set(&mut self, address: usize, value: T)
        requires
            old(self).wf(),
            old(self)@.contains_key(address),
        ensures
            final(self).wf(),
            final(self)@ == old(self)@.insert(address, value),
            final(self).spare() == old(self).spare(),
    {
        let index: usize = address / 2 - 1;
        self.slots.set(index, Some(value));
        assert(final(self)@ =~= old(self)@.insert(address, value)) by {
            assert forall|a: usize| a % 2 == 0 && a >= 2 && a != address implies slot_of(a)
                != index by {}
        }
    }
}

} // verus!
