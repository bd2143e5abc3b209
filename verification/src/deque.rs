//! The double-ended queue abstraction: an element wrapper and the `Deque`
//! contract that every backend implements.

use vstd::prelude::*;

verus! {

/// The element wrapper used by the deque backends: a container holding zero
/// or one payload value, so that absence is representable uniformly.
pub struct Node<T> {
    pub data: Option<T>,
}

impl<T> Node<T> {
    /// An empty wrapper, holding no payload.
    pub fn new() -> (n: Self)
        ensures
            n.data is None,
    {
        Self { data: None }
    }

    /// A wrapper holding the given payload.
    pub fn from(data: T) -> (n: Self)
        ensures
            n.data == Some(data),
    {
        Self { data: Some(data) }
    }
}

impl<T> Default for Node<T> {
    fn default() -> (n: Self)
        ensures
            n.data is None,
    {
        Self::new()
    }
}

/// The deque contract. A backend is viewed as the sequence of wrappers it
/// holds, front first; `wf` is the backend's internal invariant, which every
/// operation preserves.
pub trait Deque<T>: Sized {
    /// The stored wrappers in logical order, front first.
    spec fn items(&self) -> Seq<Node<T>>;

    /// The backend's internal invariant.
    spec fn wf(&self) -> bool;

    /// Inserts at the logical front.
    fn push_front(&mut self, element: Node<T>)
        requires
            old(self).wf(),
        ensures
            final(self).wf(),
            final(self).items() == seq![element] + old(self).items(),
    ;

    /// Inserts at the logical back.
    fn push_back(&mut self, element: Node<T>)
        requires
            old(self).wf(),
        ensures
            final(self).wf(),
            final(self).items() == old(self).items().push(element),
    ;

    /// Removes and returns the front element, or `None` when empty.
    fn pop_front(&mut self) -> (r: Option<Node<T>>)
        requires
            old(self).wf(),
        ensures
            final(self).wf(),
            (old(self).items().len() == 0 ==> r is None && final(self).items()
                == old(self).items()),
            (old(self).items().len() > 0 ==> r == Some(old(self).items().first())
                && final(self).items() == old(self).items().drop_first()),
    ;

    /// Removes and returns the back element, or `None` when empty.
    fn pop_back(&mut self) -> (r: Option<Node<T>>)
        requires
            old(self).wf(),
        ensures
            final(self).wf(),
            (old(self).items().len() == 0 ==> r is None && final(self).items()
                == old(self).items()),
            (old(self).items().len() > 0 ==> r == Some(old(self).items().last())
                && final(self).items() == old(self).items().drop_last()),
    ;

    /// Reads the front element without removing it, or `None` when empty.
    fn front(&self) -> (r: Option<&Node<T>>)
        requires
            self.wf(),
        ensures
            (self.items().len() == 0 ==> r is None),
            (self.items().len() > 0 ==> (r matches Some(n) && *n == self.items().first())),
    ;

    /// Reads the back element without removing it, or `None` when empty.
    fn back(&self) -> (r: Option<&Node<T>>)
        requires
            self.wf(),
        ensures
            (self.items().len() == 0 ==> r is None),
            (self.items().len() > 0 ==> (r matches Some(n) && *n == self.items().last())),
    ;

    /// True iff the deque holds no elements.
    fn is_empty(&self) -> (r: bool)
        requires
            self.wf(),
        ensures
            r <==> self.items().len() == 0,
    ;

    /// The number of stored elements.
    fn len(&self) -> (r: usize)
        requires
            self.wf(),
        ensures
            r == self.items().len(),
    ;
}

/// The items of a deque after pushing each element of `vals` at the back of
/// an initially empty deque, in order: by `push_back`'s postcondition, each
/// call turns the items `s` into `s.push(element)`.
pub open spec fn items_after_pushes<T>(vals: Seq<Node<T>>) -> Seq<Node<T>>
    decreases vals.len(),
{
    if vals.len() == 0 {
        Seq::empty()
    } else {
        items_after_pushes(vals.drop_last()).push(vals.last())
    }
}

/// Law (first half of the FIFO round trip): pushing a sequence of elements
/// at the back of an empty deque stores exactly that sequence, in order.
pub proof fn lemma_push_run_items<T>(vals: Seq<Node<T>>)
    ensures
        items_after_pushes(vals) == vals,
    decreases vals.len(),
{
    if vals.len() == 0 {
        assert(items_after_pushes(vals) =~= vals);
    } else {
        lemma_push_run_items(vals.drop_last());
        assert(vals.drop_last().push(vals.last()) =~= vals);
    }
}

/// Law (second half of the FIFO round trip): by `pop_front`'s postcondition,
/// a deque holding `s` after `k` front pops holds `s.skip(k)`; this says the
/// next pop then returns `s[k]` and leaves `s.skip(k + 1)`, so a sequence of
/// `push_back` calls followed by the same number of `pop_front` calls
/// returns the values in their original insertion order.
pub proof fn lemma_fifo_round_trip<T>(s: Seq<Node<T>>, k: int)
    requires
        0 <= k < s.len(),
    ensures
        s.skip(k).first() == s[k],
        s.skip(k).drop_first() == s.skip(k + 1),
{
    assert(s.skip(k).drop_first() =~= s.skip(k + 1));
}

/// Law (stack behaviour): by `push_back`'s and `pop_back`'s postconditions,
/// a `push_back` followed by a `pop_back` returns the element just pushed
/// and leaves the prior contents untouched.
pub proof fn lemma_lifo_push_pop<T>(s: Seq<Node<T>>, element: Node<T>)
    ensures
        s.push(element).last() == element,
        s.push(element).drop_last() == s,
{
    assert(s.push(element).drop_last() =~= s);
}

} // verus!
