//! A queue whose elements keep their indices while the front is popped.

use std::collections::VecDeque;
use vstd::prelude::*;

verus! {

/// A sliding deque is almost exactly the same as a regular [`VecDeque`], but
/// if you pop an element from the front of it, then the remaining elements
/// keep the indices that they had. If you pop several times from the front
/// and push some elements to the back, the queue effectively "slides" to the
/// right on the axis of indices. The indices wrap around at `usize::MAX`.
pub struct SlidingDeque<T> {
    data: VecDeque<T>,
    /// Index of the element at the front of `data`.
    basis: usize,
}

/// What a [`SlidingDeque`] holds: its elements from front to back, and the
/// index of the front element.
pub struct DequeView<T> {
    /// The elements, the front first.
    pub items: Seq<T>,
    /// The index of `items[0]`.
    pub basis: usize,
}

impl<T> DequeView<T> {
    /// How far behind the front the element with the given index stands.
    pub open spec fn position_of(self, index: usize) -> usize {
        index.wrapping_sub(self.basis)
    }

    /// The index that a new element would get.
    pub open spec fn next_index(self) -> usize {
        self.basis.wrapping_add(self.items.len() as usize)
    }

    /// The element with the given index, if it is in the queue.
    pub open spec fn get(self, index: usize) -> Option<T> {
        if self.position_of(index) < self.items.len() {
            Some(self.items[self.position_of(index) as int])
        } else {
            None
        }
    }

    /// The queue with `value` added at the back.
    pub open spec fn push_back(self, value: T) -> Self {
        DequeView { items: self.items.push(value), basis: self.basis }
    }

    /// The queue without its front element.
    pub open spec fn pop_front(self) -> Self {
        if self.items.len() == 0 {
            self
        } else {
            DequeView { items: self.items.drop_first(), basis: self.basis.wrapping_add(1) }
        }
    }

    /// The queue without its back element.
    pub open spec fn pop_back(self) -> Self {
        if self.items.len() == 0 {
            self
        } else {
            DequeView { items: self.items.drop_last(), basis: self.basis }
        }
    }

    /// The queue with `value` in place of the element with the given index.
    pub open spec fn set(self, index: usize, value: T) -> Self {
        if self.position_of(index) < self.items.len() {
            DequeView {
                items: self.items.update(self.position_of(index) as int, value),
                basis: self.basis,
            }
        } else {
            self
        }
    }

    /// The first element, if there is one.
    pub open spec fn front(self) -> Option<T> {
        if self.items.len() == 0 {
            None
        } else {
            Some(self.items[0])
        }
    }
}

/// `VecDeque::get_mut`: a mutable reference to the element at the given
/// position, counted from the front, or `None` where the queue is shorter.
#[verifier::external_body]
fn deque_get_mut<T>(queue: &mut VecDeque<T>, position: usize) -> (slot: Option<&mut T>)
    ensures
        position >= old(queue)@.len() ==> slot.is_none() && final(queue)@ == old(queue)@,
        position < old(queue)@.len() ==> slot.is_some() && *slot.unwrap() == old(queue)@[position as int]
            && final(queue)@ == old(queue)@.update(position as int, *final(slot.unwrap())),
{
    queue.get_mut(position)
}

impl<T> View for SlidingDeque<T> {
    type V = DequeView<T>;

    closed spec fn view(&self) -> DequeView<T> {
        DequeView { items: self.data@, basis: self.basis }
    }
}

impl<T> SlidingDeque<T> {
    /// The empty queue, whose first element will have the index 0.
    pub fn new() -> (queue: Self)
        ensures
            queue@ == (DequeView { items: Seq::<T>::empty(), basis: 0usize }),
    {
        SlidingDeque { data: VecDeque::new(), basis: 0 }
    }

    /// The number of elements in the queue.
    pub fn len(&self) -> (len: usize)
        ensures
            len == self@.items.len(),
    {
        self.data.len()
    }

    /// Adds `value` at the back and returns its index.
    pub fn push_back(&mut self, value: T) -> (index: usize)
        ensures
            final(self)@ == old(self)@.push_back(value),
            index == old(self)@.next_index(),
            final(self)@.items.len() <= usize::MAX,
    {
        let index: usize = self.basis.wrapping_add(self.data.len());
        self.data.push_back(value);
        let _ = self.data.len();
        index
    }

    /// The index of the element at the front, or of the next element where
    /// the queue is empty.
    pub fn basis(&self) -> (basis: usize)
        ensures
            basis == self@.basis,
    {
        self.basis
    }

    /// The element at the front.
    pub fn front(&self) -> (front: Option<&T>)
        ensures
            front == match self@.front() {
                Some(value) => Some(&value),
                None => None,
            },
    {
        if self.data.len() == 0 {
            None
        } else {
            Some(&self.data[0])
        }
    }

    /// The element at the front, to be changed in place.
    pub fn front_mut(&mut self) -> (front: Option<&mut T>)
        ensures
            old(self)@.items.len() == 0 ==> front.is_none() && final(self)@ == old(self)@,
            old(self)@.items.len() > 0 ==> front.is_some() && *front.unwrap() == old(self)@.items[0]
                && final(self)@ == old(self)@.set(old(self)@.basis, *final(front.unwrap())),
    {
        deque_get_mut(&mut self.data, 0)
    }

    /// Removes the element at the front and returns it. The indices of the
    /// other elements stay.
    pub fn pop_front(&mut self) -> (front: Option<T>)
        ensures
            front == old(self)@.front(),
            final(self)@ == old(self)@.pop_front(),
    {
        match self.data.pop_front() {
            Some(value) => {
                self.basis = self.basis.wrapping_add(1);
                Some(value)
            },
            None => None,
        }
    }

    /// Removes the element at the back and returns it.
    pub fn pop_back(&mut self) -> (back: Option<T>)
        ensures
            back == if old(self)@.items.len() == 0 {
                None
            } else {
                Some(old(self)@.items.last())
            },
            final(self)@ == old(self)@.pop_back(),
    {
        self.data.pop_back()
    }

    /// The element with the given index.
    pub fn get(&self, index: usize) -> (element: Option<&T>)
        ensures
            element == match self@.get(index) {
                Some(value) => Some(&value),
                None => None,
            },
    {
        let position: usize = index.wrapping_sub(self.basis);
        if position < self.data.len() {
            Some(&self.data[position])
        } else {
            None
        }
    }

    /// The element with the given index, to be changed in place.
    pub fn get_mut(&mut self, index: usize) -> (element: Option<&mut T>)
        ensures
            old(self)@.get(index) is None ==> element.is_none() && final(self)@ == old(self)@,
            old(self)@.get(index) is Some ==> element.is_some() && Some(*element.unwrap()) == old(
                self,
            )@.get(index) && final(self)@ == old(self)@.set(index, *final(element.unwrap())),
    {
        let position: usize = index.wrapping_sub(self.basis);
        deque_get_mut(&mut self.data, position)
    }
}

/// An index that `push_back` has returned refers to the pushed element.
pub proof fn lemma_pushed_index_refers<T>(queue: DequeView<T>, value: T)
    requires
        queue.items.len() < usize::MAX,
    ensures
        queue.push_back(value).get(queue.next_index()) == Some(value),
{
}

/// Pushing at the back leaves every element of the queue at its index.
pub proof fn lemma_push_keeps_indices<T>(queue: DequeView<T>, value: T, index: usize)
    requires
        queue.get(index) is Some,
    ensures
        queue.push_back(value).get(index) == queue.get(index),
{
}

/// Popping the front leaves every other element of the queue at its index.
pub proof fn lemma_pop_keeps_indices<T>(queue: DequeView<T>, index: usize)
    requires
        queue.items.len() <= usize::MAX,
        queue.get(index) is Some,
        index != queue.basis,
    ensures
        queue.pop_front().get(index) == queue.get(index),
{
}

} // verus!
