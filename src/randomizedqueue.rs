use crate::random::random_index;
use vstd::prelude::*;
use vstd::std_specs::iter::IteratorSpec;

verus! {

broadcast use vstd::std_specs::vec::group_vec_axioms;

/// `x` is a clone of some item of `s`.
pub open spec fn clone_of_some<E: Clone>(s: Seq<E>, x: E) -> bool {
    exists|j: int| 0 <= j < s.len() && cloned(#[trigger] s[j], x)
}

/// Each item of `t` is a clone of some item of `s`.
pub open spec fn clones_from<E: Clone>(s: Seq<E>, t: Seq<E>) -> bool {
    forall|i: int| 0 <= i < t.len() ==> clone_of_some(s, #[trigger] t[i])
}

/// Walks a snapshot of a queue's items in random order.
pub type Iter<E> = std::vec::IntoIter<E>;

/// A queue whose removals and samples pick an item uniformly at random.
pub struct RandomQueue<E> {
    vec: Vec<E>,
}

impl<E> View for RandomQueue<E> {
    type V = Seq<E>;

    closed spec fn view(&self) -> Seq<E> {
        self.vec@
    }
}

impl<E: Clone> RandomQueue<E> {
    pub fn new() -> (q: RandomQueue<E>)
        ensures
            q@ == Seq::<E>::empty(),
    {
        RandomQueue { vec: Vec::with_capacity(2) }
    }

    pub fn len(&self) -> (r: usize)
        ensures
            r == self@.len(),
    {
        self.vec.len()
    }

    pub fn enqueue(&mut self, item: E)
        ensures
            final(self)@ == old(self)@.push(item),
    {
        self.vec.push(item);
    }

    /// Removes a randomly chosen item; the last item takes its place.
    pub fn dequeue(&mut self) -> (r: Option<E>)
        ensures
            match r {
                None => old(self)@.len() == 0 && final(self)@ == old(self)@,
                Some(x) => exists|i: int|
                    0 <= i < old(self)@.len() && x == old(self)@[i] && final(self)@ == old(
                        self,
                    )@.update(i, old(self)@.last()).drop_last(),
            },
    {
        if self.vec.len() == 0 {
            return None;
        }
        let picked = random_index(self.vec.len());
        let x = self.vec.swap_remove(picked);
        assert(x == old(self)@[picked as int]);
        Some(x)
    }

    /// A clone of a randomly chosen item.
    pub fn sample(&self) -> (r: Option<E>)
        ensures
            match r {
                None => self@.len() == 0,
                Some(x) => clone_of_some(self@, x),
            },
    {
        if self.vec.len() == 0 {
            None
        } else {
            let picked = random_index(self.vec.len());
            let x = self.vec[picked].clone();
            assert(cloned(self@[picked as int], x));
            Some(x)
        }
    }

    /// Clones of all items, in random order.
    pub fn iter(&self) -> (r: Iter<E>)
        ensures
            r.remaining().len() == self@.len(),
            clones_from(self@, r.remaining()),
    {
        let mut items: Vec<E> = Vec::new();
        let mut k: usize = 0;
        while k < self.vec.len()
            invariant
                k <= self.vec.len(),
                items@.len() == k,
                forall|i: int| 0 <= i < k ==> cloned(self@[i], #[trigger] items@[i]),
            decreases self.vec.len() - k,
        {
            let c = self.vec[k].clone();
            assert(cloned(self@[k as int], c));
            items.push(c);
            k = k + 1;
        }
        let mut shuffled: Vec<E> = Vec::new();
        let ghost n = items@.len();
        assert(clones_from(self@, items@)) by {
            assert forall|i: int| 0 <= i < items@.len() implies clone_of_some(self@, #[trigger] items@[i]) by {
                assert(cloned(self@[i], items@[i]));
            }
        }
        while items.len() > 0
            invariant
                shuffled@.len() + items@.len() == n,
                n == self@.len(),
                clones_from(self@, items@),
                clones_from(self@, shuffled@),
            decreases items@.len(),
        {
            let ghost before = items@;
            let r = random_index(items.len());
            let x = items.swap_remove(r);
            proof {
                assert(clones_from(self@, before));
                assert forall|i: int| 0 <= i < items@.len() implies clone_of_some(self@, #[trigger] items@[i]) by {
                    if i == r {
                        assert(items@[i] == before[before.len() - 1]);
                    } else {
                        assert(items@[i] == before[i]);
                    }
                }
            }
            let ghost sbefore = shuffled@;
            shuffled.push(x);
            proof {
                assert(clones_from(self@, sbefore));
                assert forall|i: int| 0 <= i < shuffled@.len() implies clone_of_some(self@, #[trigger] shuffled@[i]) by {
                    if i < sbefore.len() {
                        assert(shuffled@[i] == sbefore[i]);
                    } else {
                        assert(shuffled@[i] == before[r as int]);
                    }
                }
            }
        }
        let it = shuffled.into_iter();
        assert(it.remaining() == shuffled@);
        it
    }
}

} // verus!
