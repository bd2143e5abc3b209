//! The array-backed deque: contiguous growable storage with explicit
//! `first`/`last` index bookkeeping.
//!
//! Invariant: `first` is always 0, and `last` points at the last occupied
//! slot whenever the deque is non-empty; when empty, both collapse to
//! index 0, a documented degenerate state that represents no real element.

use vstd::prelude::*;

use crate::deque::{Deque, Node};

verus! {

/// A deque stored in one growable array. The logical front is the start of
/// the array, so `push_front`/`pop_front` shift the existing elements.
pub struct DequeArrayList<T> {
    list: Vec<Node<T>>,
    first: usize,
    last: usize,
}

impl<T> DequeArrayList<T> {
    /// Constructs an empty deque.
    pub fn new() -> (d: Self)
        ensures
            d.wf(),
            d.items() == Seq::<Node<T>>::empty(),
    {
        Self { list: Vec::new(), first: 0, last: 0 }
    }

    /// Constructs a deque holding the elements of `v` in order. The vector
    /// must be non-empty: `last` starts at the final occupied slot.
    pub fn from_vec(v: Vec<Node<T>>) -> (d: Self)
        requires
            v@.len() >= 1,
        ensures
            d.wf(),
            d.items() == v@,
    {
        let last: usize = v.len() - 1;

        Self { list: v, first: 0, last }
    }
}

impl<T> Deque<T> for DequeArrayList<T> {
    /// The stored wrappers, front first: exactly the array's contents.
    closed spec fn items(&self) -> Seq<Node<T>> {
        self.list@
    }

    /// `first` stays 0; `last` is the index of the last element, or 0 when
    /// the deque is empty.
    closed spec fn wf(&self) -> bool {
        &&& self.first == 0
        &&& self.last == (if self.list@.len() == 0 {
            0int
        } else {
            self.list@.len() - 1
        })
    }

    fn push_front(&mut self, element: Node<T>) {
        self.list.insert(self.first, element);
        self.last = self.list.len() - 1;
        proof {
            assert(self.items() =~= seq![element] + old(self).items());
        }
    }

    fn push_back(&mut self, element: Node<T>) {
        self.list.push(element);
        self.last = self.list.len() - 1;
    }

    fn pop_front(&mut self) -> (r: Option<Node<T>>) {
        if self.is_empty() {
            return None;
        }

        let elem = self.list.remove(self.first);
        self.last = self.list.len().checked_sub(1).unwrap_or(0);

        proof {
            assert(self.items() =~= old(self).items().drop_first());
        }
        Some(elem)
    }

    fn pop_back(&mut self) -> (r: Option<Node<T>>) {
        if self.is_empty() {
            return None;
        }

        let elem = self.list.remove(self.last);
        self.last = self.list.len().checked_sub(1).unwrap_or(0);

        proof {
            assert(self.items() =~= old(self).items().drop_last());
        }
        Some(elem)
    }

    fn front(&self) -> (r: Option<&Node<T>>) {
        if self.is_empty() {
            None
        } else {
            Some(&self.list[self.first])
        }
    }

    fn back(&self) -> (r: Option<&Node<T>>) {
        if self.is_empty() {
            None
        } else {
            Some(&self.list[self.last])
        }
    }

    fn is_empty(&self) -> (r: bool) {
        self.list.len() == 0
    }

    fn len(&self) -> (r: usize) {
        self.list.len()
    }
}

} // verus!
