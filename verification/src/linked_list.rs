//! A singly linked list with owned nodes, pushed and popped at the head.

use vstd::prelude::*;

verus! {

/// A singly linked list; its view is the sequence of values from the head
/// backwards.
pub struct LinkedList<T> {
    head: Option<Box<Node<T>>>,
}

/// One owned node of the list.
pub struct Node<T> {
    value: T,
    next: Option<Box<Node<T>>>,
}

/// The values reachable from an optional node, nearest first.
spec fn chain_view<T>(link: Option<Box<Node<T>>>) -> Seq<T>
    decreases link,
{
    match link {
        Some(node) => seq![node.value] + chain_view(node.next),
        None => Seq::empty(),
    }
}

impl<T> LinkedList<T> {
    /// The values of the list, head first.
    pub closed spec fn view(&self) -> Seq<T> {
        chain_view(self.head)
    }

    /// An empty list.
    pub fn new() -> (r: LinkedList<T>)
        ensures
            r@ == Seq::<T>::empty(),
    {
        LinkedList { head: None }
    }

    /// Prepends a value at the head.
    pub fn push(&mut self, value: T)
        ensures
            final(self)@ == seq![value] + old(self)@,
    {
        let new_node = Node { value, next: self.head.take() };

        self.head = Some(Box::new(new_node));
    }

    /// Removes and returns the head value, if any.
    pub fn pop(&mut self) -> (r: Option<T>)
        ensures
            match r {
                Some(v) => old(self)@.len() > 0 && v == old(self)@[0] && final(self)@ == old(
                    self,
                )@.drop_first(),
                None => old(self)@.len() == 0 && final(self)@ == old(self)@,
            },
    {
        match self.head.take() {
            None => {
                proof {
                    assert(self@ =~= old(self)@);
                }
                None
            },
            Some(node) => {
                let node = *node;
                self.head = node.next;
                proof {
                    assert(self@ =~= old(self)@.drop_first());
                }
                Some(node.value)
            },
        }
    }

    /// The head value, if any, without removing it.
    pub fn peek(&self) -> (r: Option<&T>)
        ensures
            match r {
                Some(v) => self@.len() > 0 && *v == self@[0],
                None => self@.len() == 0,
            },
    {
        match &self.head {
            Some(node) => Some(&node.value),
            None => None,
        }
    }

    /// A mutable reference to the head value, if any.
    pub fn peek_mut(&mut self) -> (r: Option<&mut T>)
        ensures
            old(self)@.len() == 0 ==> r is None && final(self)@ == old(self)@,
            old(self)@.len() > 0 ==> (r matches Some(v) && *v == old(self)@[0] && final(self)@
                == old(self)@.update(0, *final(v))),
    {
        match &mut self.head {
            Some(node) => Some(&mut node.value),
            None => None,
        }
    }

    /// Removes and returns the head value; the list hands its values out
    /// front to back when this is called repeatedly.
    pub fn next(&mut self) -> (r: Option<T>)
        ensures
            match r {
                Some(v) => old(self)@.len() > 0 && v == old(self)@[0] && final(self)@ == old(
                    self,
                )@.drop_first(),
                None => old(self)@.len() == 0 && final(self)@ == old(self)@,
            },
    {
        self.pop()
    }

    /// A borrowing cursor over the values, head first.
    pub fn iter(&self) -> (r: Iter<T>)
        ensures
            r@ == self@,
    {
        Iter {
            next: match &self.head {
                Some(node) => Some(&**node),
                None => None,
            },
        }
    }
}

/// A borrowing cursor; its view is the sequence of values not yet handed
/// out.
pub struct Iter<'a, T> {
    next: Option<&'a Node<T>>,
}

/// The values reachable from an optional borrowed node, nearest first.
spec fn borrowed_chain_view<T>(link: Option<&Node<T>>) -> Seq<T> {
    match link {
        Some(node) => seq![node.value] + chain_view(node.next),
        None => Seq::empty(),
    }
}

impl<'a, T> Iter<'a, T> {
    /// The values not yet handed out.
    pub closed spec fn view(&self) -> Seq<T> {
        borrowed_chain_view(self.next)
    }

    /// Hands out the next value, if any remains.
    pub fn next(&mut self) -> (r: Option<&'a T>)
        ensures
            match r {
                Some(v) => old(self)@.len() > 0 && *v == old(self)@[0] && final(self)@ == old(
                    self,
                )@.drop_first(),
                None => old(self)@.len() == 0 && final(self)@ == old(self)@,
            },
    {
        match self.next {
            Some(node) => {
                self.next = match &node.next {
                    Some(n) => Some(&**n),
                    None => None,
                };
                proof {
                    assert(self@ =~= old(self)@.drop_first());
                }
                Some(&node.value)
            },
            None => None,
        }
    }
}

} // verus!
