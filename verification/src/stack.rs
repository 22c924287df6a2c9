//! Stack: a last-in first-out container.
//!
//! The most recently pushed item is the first one to be popped, as with a
//! stack of plates: items come off in the reverse of the order they went on.

use vstd::prelude::*;

verus! {

/// A stack backed by a growable vector.
///
/// `pointer_to_top` is the index of the top item, or -1 when the stack is
/// empty; `size` counts the stored items.
pub struct Stack<T> {
    data: Vec<T>,
    pointer_to_top: i32,
    size: u32,
}

impl<T> View for Stack<T> {
    type V = Seq<T>;

    closed spec fn view(&self) -> Seq<T> {
        self.data@
    }
}

impl<T> Stack<T> {
    /// Both counters agree with the number of stored items.
    pub closed spec fn wf(self) -> bool {
        &&& self.size as int == self.data@.len()
        &&& self.pointer_to_top as int == self.data@.len() - 1
    }

    pub fn new() -> (s: Self)
        ensures
            s.wf(),
            s@ == Seq::<T>::empty(),
    {
        Stack { data: Vec::new(), pointer_to_top: -1, size: 0 }
    }

    /// Returns true if and only if the stack is empty.
    pub fn is_empty(&self) -> (r: bool)
        requires
            self.wf(),
        ensures
            r == (self@.len() == 0),
    {
        self.data.is_empty()
    }

    /// Number of items currently on the stack.
    pub fn size(&self) -> (r: u32)
        requires
            self.wf(),
        ensures
            r as int == self@.len(),
    {
        self.size
    }

    /// The stored items, bottom of the stack first.
    pub fn items(&self) -> (r: &Vec<T>)
        ensures
            r@ == self@,
    {
        &self.data
    }

    /// Add an item on top of the stack.
    pub fn push(&mut self, item: T)
        requires
            old(self).wf(),
            old(self)@.len() < i32::MAX,
        ensures
            final(self).wf(),
            final(self)@ == old(self)@.push(item),
    {
        self.pointer_to_top = self.pointer_to_top + 1;
        self.data.insert(self.pointer_to_top as usize, item);
        self.size = self.size + 1;
        proof {
            assert(self.data@ =~= old(self).data@.push(item));
        }
    }

    /// Return the top of the stack without removing it.
    pub fn peek(&self) -> (r: Option<&T>)
        requires
            self.wf(),
        ensures
            self@.len() == 0 ==> r == None::<&T>,
            self@.len() > 0 ==> r == Some(&self@[self@.len() - 1]),
    {
        if self.pointer_to_top < 0 {
            None
        } else {
            Some(&self.data[self.pointer_to_top as usize])
        }
    }

    /// Remove and return the top item; items come off in the reverse of the
    /// order they were pushed. Returns `None` on an empty stack.
    pub fn pop(&mut self) -> (r: Option<T>)
        requires
            old(self).wf(),
        ensures
            final(self).wf(),
            old(self)@.len() == 0 ==> r == None::<T> && final(self)@ == old(self)@,
            old(self)@.len() > 0 ==> r == Some(old(self)@.last())
                && final(self)@ == old(self)@.drop_last(),
    {
        if self.pointer_to_top < 0 {
            return None;
        }
        self.size = self.size - 1;

        let result = Some(self.data.remove(self.pointer_to_top as usize));
        self.pointer_to_top = self.pointer_to_top - 1;
        proof {
            assert(self.data@ =~= old(self).data@.drop_last());
        }
        result
    }
}

} // verus!
