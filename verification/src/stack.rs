//! A growable stack over a backing array.
//!
//! The backing array may be longer than the stack; `length` counts the live
//! prefix. Popping only moves the boundary back, so `pop` can hand out a
//! reference to the slot that was just vacated, exactly as the caller last
//! pushed it.

use vstd::prelude::*;
use vstd::pervasive::VecAdditionalExecFns;

verus! {

/// A last-in-first-out stack; its view is the sequence of elements from
/// bottom to top.
pub struct Stack<T> {
    data: Vec<T>,
    length: usize,
}

impl<T> Stack<T> {
    /// The live elements, bottom first.
    pub closed spec fn view(&self) -> Seq<T> {
        self.data@.take(self.length as int)
    }

    /// The live prefix never exceeds the backing array.
    pub closed spec fn wf(&self) -> bool {
        self.length <= self.data@.len()
    }

    /// An empty stack; nothing is allocated yet.
    pub fn new() -> (r: Stack<T>)
        ensures
            r.wf(),
            r@ == Seq::<T>::empty(),
    {
        let r = Stack { data: Vec::new(), length: 0 };
        proof {
            assert(r@ =~= Seq::<T>::empty());
        }
        r
    }

    /// Whether the stack holds no element.
    pub fn is_empty(&self) -> (r: bool)
        requires
            self.wf(),
        ensures
            r == (self@.len() == 0),
    {
        self.length == 0
    }

    /// The number of elements.
    pub fn size(&self) -> (r: usize)
        requires
            self.wf(),
        ensures
            r == self@.len(),
    {
        self.length
    }

    /// The top element, if any, without removing it.
    pub fn peek(&self) -> (r: Option<&T>)
        requires
            self.wf(),
        ensures
            match r {
                Some(x) => self@.len() > 0 && *x == self@.last(),
                None => self@.len() == 0,
            },
    {
        match self.is_empty() {
            true => None,
            false => Some(&self.data[self.length - 1]),
        }
    }

    /// Removes the top element and hands back a reference to it; the slot
    /// stays in the backing array until the next push overwrites it.
    pub fn pop(&mut self) -> (r: Option<&T>)
        requires
            old(self).wf(),
        ensures
            final(self).wf(),
            match r {
                Some(x) => old(self)@.len() > 0 && *x == old(self)@.last() && final(self)@ == old(
                    self,
                )@.drop_last(),
                None => old(self)@.len() == 0 && final(self)@ == old(self)@,
            },
    {
        if self.length == 0 {
            return None;
        }

        self.length = self.length - 1;
        proof {
            assert(self@ =~= old(self)@.drop_last());
        }
        Some(&self.data[self.length])
    }

    /// Pushes an element on top, growing the backing array when its spare
    /// slots are used up.
    pub fn push(&mut self, item: T)
        requires
            old(self).wf(),
        ensures
            final(self).wf(),
            final(self)@ == old(self)@.push(item),
    {
        if self.length == self.data.len() {
            self.data.push(item);
        } else {
            self.data.set(self.length, item);
        }
        proof {
            assert(self.data.len() == self.data@.len());
        }
        self.length = self.length + 1;
        proof {
            assert(self@ =~= old(self)@.push(item));
        }
    }
}

} // verus!
