use crate::redblacktree::deref_all;
use vstd::prelude::*;
use vstd::std_specs::iter::IteratorSpec;

verus! {

broadcast use vstd::std_specs::vec::group_vec_axioms;

struct Node<E> {
    item: E,
    next: Option<Box<Node<E>>>,
}

/// The items of a chain of nodes, first to last.
spec fn chain<E>(link: Option<Box<Node<E>>>) -> Seq<E>
    decreases link,
{
    match link {
        None => Seq::empty(),
        Some(node) => seq![node.item] + chain(node.next),
    }
}

/// Walks a list's items from first to last.
pub type Iter<'a, E> = std::vec::IntoIter<&'a E>;

/// A singly linked stack: items are added and removed at the front.
pub struct LinkedList<E> {
    size: usize,
    first: Option<Box<Node<E>>>,
}

impl<E> View for LinkedList<E> {
    type V = Seq<E>;

    closed spec fn view(&self) -> Seq<E> {
        chain(self.first)
    }
}

impl<E> LinkedList<E> {
    /// The cached length is the number of items.
    pub closed spec fn wf(&self) -> bool {
        self.size == chain(self.first).len()
    }

    pub fn new() -> (l: LinkedList<E>)
        ensures
            l.wf(),
            l@ == Seq::<E>::empty(),
    {
        LinkedList { first: None, size: 0 }
    }

    pub fn len(&self) -> (r: usize)
        requires
            self.wf(),
        ensures
            r == self@.len(),
    {
        self.size
    }

    pub fn add_first(&mut self, item: E)
        requires
            old(self).wf(),
            old(self)@.len() < usize::MAX,
        ensures
            final(self).wf(),
            final(self)@ == seq![item] + old(self)@,
    {
        let rest = self.first.take();
        self.first = Some(Box::new(Node { item: item, next: rest }));
        self.size = self.size + 1;
    }

    pub fn remove_first(&mut self) -> (r: Option<E>)
        requires
            old(self).wf(),
        ensures
            final(self).wf(),
            match r {
                None => old(self)@.len() == 0 && final(self)@ == old(self)@,
                Some(x) => old(self)@.len() > 0 && x == old(self)@[0] && final(self)@ == old(
                    self,
                )@.drop_first(),
            },
    {
        match self.first.take() {
            None => None,
            Some(boxed_node) => {
                let node = *boxed_node;
                self.first = node.next;
                self.size = self.size - 1;
                proof {
                    assert(chain(self.first) =~= old(self)@.drop_first());
                }
                Some(node.item)
            },
        }
    }

    /// The items from first to last.
    pub fn iter(&self) -> (r: Iter<'_, E>)
        requires
            self.wf(),
        ensures
            deref_all(r.remaining()) == self@,
    {
        let mut items: Vec<&E> = Vec::new();
        let mut cur = &self.first;
        proof {
            assert(deref_all(items@) + chain(*cur) =~= self@);
        }
        while cur.is_some()
            invariant
                deref_all(items@) + chain(*cur) == self@,
            decreases chain(*cur).len(),
        {
            match cur {
                Some(node) => {
                    let ghost before = items@;
                    items.push(&node.item);
                    proof {
                        assert(deref_all(items@) =~= deref_all(before).push(node.item));
                        assert(deref_all(items@) + chain(node.next) =~= deref_all(before) + chain(
                            *cur,
                        ));
                    }
                    cur = &node.next;
                },
                None => {},
            }
        }
        proof {
            assert(deref_all(items@) =~= self@);
        }
        items.into_iter()
    }
}

} // verus!
