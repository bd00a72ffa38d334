use std::collections::VecDeque;
use vstd::prelude::*;
use vstd::std_specs::iter::IteratorSpec;

verus! {

broadcast use vstd::std_specs::vecdeque::group_vec_dequeue_axioms;

/// Walks a deque's items from first to last.
pub type Iter<'a, E> = std::collections::vec_deque::Iter<'a, E>;

/// A double-ended queue with constant-time insertion and removal at each end.
pub struct Deque<E> {
    items: VecDeque<E>,
}

impl<E> View for Deque<E> {
    type V = Seq<E>;

    closed spec fn view(&self) -> Seq<E> {
        self.items@
    }
}

impl<E> Deque<E> {
    pub fn new() -> (d: Deque<E>)
        ensures
            d@ == Seq::<E>::empty(),
    {
        Deque { items: VecDeque::new() }
    }

    pub fn len(&self) -> (r: usize)
        ensures
            r == self@.len(),
    {
        self.items.len()
    }

    pub fn add_first(&mut self, item: E)
        ensures
            final(self)@ == seq![item] + old(self)@,
    {
        self.items.push_front(item);
    }

    pub fn add_last(&mut self, item: E)
        ensures
            final(self)@ == old(self)@.push(item),
    {
        self.items.push_back(item);
    }

    pub fn remove_first(&mut self) -> (r: Option<E>)
        ensures
            match r {
                None => old(self)@.len() == 0 && final(self)@ == old(self)@,
                Some(x) => old(self)@.len() > 0 && x == old(self)@[0] && final(self)@ == old(
                    self,
                )@.drop_first(),
            },
    {
        let r = self.items.pop_front();
        proof {
            if r.is_some() {
                assert(self@ =~= old(self)@.drop_first());
            }
        }
        r
    }

    pub fn remove_last(&mut self) -> (r: Option<E>)
        ensures
            match r {
                None => old(self)@.len() == 0 && final(self)@ == old(self)@,
                Some(x) => old(self)@.len() > 0 && x == old(self)@.last() && final(self)@ == old(
                    self,
                )@.drop_last(),
            },
    {
        let r = self.items.pop_back();
        proof {
            if r.is_some() {
                assert(self@ =~= old(self)@.drop_last());
            }
        }
        r
    }

    /// The items from first to last.
    pub fn iter(&self) -> (r: Iter<'_, E>)
        ensures
            r.remaining() == self@.as_ref(),
    {
        self.items.iter()
    }
}

} // verus!
