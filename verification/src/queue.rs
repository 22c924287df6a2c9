//! Queue: a first-in first-out container.
//!
//! As in a line at the ticket stand, items are removed in the same order as
//! they were added.

use vstd::prelude::*;
use vstd::std_specs::cmp::PartialEqSpec;

verus! {

pub const DEFAULT_CAPACITY_QUEUE: usize = 256;

/// A queue backed by a growable vector of occupied slots.
///
/// `capacity` starts at `DEFAULT_CAPACITY_QUEUE` and is raised by the same
/// amount whenever an item is added to a full queue; it only records how much
/// room the queue believes it has, the vector itself grows on its own.
pub struct Queue<T> {
    data: Vec<Option<T>>,
    capacity: usize,
    current_size: usize,
}

impl<T> View for Queue<T> {
    type V = Seq<T>;

    closed spec fn view(&self) -> Seq<T> {
        self.data@.map_values(|slot: Option<T>| slot.unwrap())
    }
}

impl<T: Copy> Queue<T> {
    /// Every slot of the vector is occupied, the size counter matches, and
    /// the size never exceeds the recorded capacity.
    pub closed spec fn wf(self) -> bool {
        &&& forall|i: int| 0 <= i < self.data@.len() ==> #[trigger] self.data@[i] is Some
        &&& self.current_size == self.data@.len()
        &&& self.current_size <= self.capacity
        &&& self.capacity >= DEFAULT_CAPACITY_QUEUE
    }

    /// How much room the queue believes it has.
    pub closed spec fn spec_capacity(self) -> int {
        self.capacity as int
    }

    pub fn new() -> (q: Self)
        ensures
            q.wf(),
            q@ == Seq::<T>::empty(),
            q.spec_capacity() == DEFAULT_CAPACITY_QUEUE,
    {
        let q = Queue {
            data: Vec::with_capacity(DEFAULT_CAPACITY_QUEUE),
            capacity: DEFAULT_CAPACITY_QUEUE,
            current_size: 0,
        };
        proof {
            assert(q@ =~= Seq::<T>::empty());
        }
        q
    }

    /// Add an item to the end of the queue.
    ///
    /// Once the queue becomes full, the recorded capacity is raised by
    /// `DEFAULT_CAPACITY_QUEUE` to reflect that the underlying vector grows.
    pub fn add(&mut self, item: T)
        requires
            old(self).wf(),
            old(self).spec_capacity() + DEFAULT_CAPACITY_QUEUE <= usize::MAX,
        ensures
            final(self).wf(),
            final(self)@ == old(self)@.push(item),
            final(self).spec_capacity() == if old(self)@.len() == old(self).spec_capacity() {
                old(self).spec_capacity() + DEFAULT_CAPACITY_QUEUE
            } else {
                old(self).spec_capacity()
            },
    {
        if self.is_full() {
            self.capacity = self.capacity + DEFAULT_CAPACITY_QUEUE;
        }
        self.data.insert(self.current_size, Some(item));
        self.current_size = self.current_size + 1;
        proof {
            assert(self.data@ =~= old(self).data@.push(Some(item)));
            assert(self@ =~= old(self)@.push(item));
        }
    }

    /// Remove and return the first item in the queue, or `None` when empty.
    pub fn remove(&mut self) -> (r: Option<T>)
        requires
            old(self).wf(),
        ensures
            final(self).wf(),
            final(self).spec_capacity() == old(self).spec_capacity(),
            old(self)@.len() == 0 ==> r == None::<T> && final(self)@ == old(self)@,
            old(self)@.len() > 0 ==> r == Some(old(self)@[0])
                && final(self)@ == old(self)@.drop_first(),
    {
        if self.is_empty() {
            return None;
        }
        let result = self.data.remove(0);
        self.current_size = self.current_size - 1;
        proof {
            assert(self@ =~= old(self)@.drop_first());
        }
        result
    }

    /// Return the most recently added item without removing it, or `None`
    /// when the queue is empty.
    pub fn peek(&self) -> (r: Option<T>)
        requires
            self.wf(),
        ensures
            self@.len() == 0 ==> r == None::<T>,
            self@.len() > 0 ==> r == Some(self@.last()),
    {
        if self.current_size == 0 {
            None
        } else {
            self.data[self.current_size - 1]
        }
    }

    /// Returns true if and only if the queue is empty.
    pub fn is_empty(&self) -> (r: bool)
        requires
            self.wf(),
        ensures
            r == (self@.len() == 0),
    {
        self.current_size == 0
    }

    /// Returns true if and only if the queue has reached its recorded
    /// capacity.
    pub fn is_full(&self) -> (r: bool)
        requires
            self.wf(),
        ensures
            r == (self@.len() == self.spec_capacity()),
    {
        self.current_size == self.capacity
    }

    /// Number of items currently in the queue.
    pub fn size(&self) -> (r: usize)
        requires
            self.wf(),
        ensures
            r as int == self@.len(),
    {
        self.current_size
    }

    /// How much room the queue believes it has.
    pub fn capacity(&self) -> (r: usize)
        requires
            self.wf(),
        ensures
            r as int == self.spec_capacity(),
    {
        self.capacity
    }
}

impl<T: Copy + PartialEq> Queue<T> {
    /// Returns true if and only if some stored item equals the given one.
    pub fn contains(&self, item: T) -> (r: bool)
        requires
            self.wf(),
        ensures
            T::obeys_eq_spec() ==> r == exists|i: int|
                0 <= i < self@.len() && self@[i].eq_spec(&item),
    {
        let mut index: usize = 0;
        while index < self.current_size
            invariant
                self.wf(),
                index <= self@.len(),
                T::obeys_eq_spec() ==> !(exists|i: int|
                    0 <= i < index && self@[i].eq_spec(&item)),
            decreases self@.len() - index,
        {
            let slot = self.data[index];
            match slot {
                Some(stored) => {
                    if stored == item {
                        proof {
                            assert(self@[index as int] == stored);
                        }
                        return true;
                    }
                },
                None => {},
            }
            index = index + 1;
        }
        false
    }
}

} // verus!
