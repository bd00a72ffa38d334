use crate::point::{dist2, Point};
use crate::rect::Rect;
use crate::redblacktree::{deref_all, lemma_tree_invariants, RedBlackTree};
use vstd::prelude::*;

verus! {

/// The test that `range` applies to each point.
pub open spec fn inside(r: Rect) -> spec_fn(Point) -> bool {
    |p: Point| r.spec_contains(p)
}

/// A set of points of the plane, kept in a red-black tree ordered by
/// y then x. Range and nearest-neighbour queries scan the points in
/// that order.
pub struct PointSet {
    points: RedBlackTree<Point, ()>,
}

impl View for PointSet {
    type V = Set<Point>;

    closed spec fn view(&self) -> Set<Point> {
        self.points@.dom()
    }
}

impl PointSet {
    pub closed spec fn wf(&self) -> bool {
        self.points.wf()
    }

    /// The points in ascending (y, x) order.
    pub closed spec fn ordered(&self) -> Seq<Point> {
        self.points.key_seq()
    }

    /// The ascending order holds each point of the set once.
    pub proof fn lemma_ordered(&self)
        requires
            self.wf(),
        ensures
            forall|p: Point| self.ordered().contains(p) <==> #[trigger] self@.contains(p),
            self.ordered().len() == self@.len(),
            self@.finite(),
    {
        lemma_tree_invariants(&self.points);
        crate::redblacktree::lemma_map_finite(&self.points);
    }

    pub fn new() -> (s: PointSet)
        ensures
            s.wf(),
            s@ == Set::<Point>::empty(),
    {
        let s = PointSet { points: RedBlackTree::new() };
        proof {
            assert(s@ =~= Set::<Point>::empty());
        }
        s
    }

    pub fn size(&self) -> (r: i32)
        requires
            self.wf(),
        ensures
            r as int == self@.len(),
    {
        self.points.size()
    }

    pub fn insert(&mut self, p: Point)
        requires
            old(self).wf(),
            old(self)@.len() < i32::MAX,
        ensures
            final(self).wf(),
            final(self)@ == old(self)@.insert(p),
    {
        self.points.put(p, ());
        proof {
            assert(self@ =~= old(self)@.insert(p));
        }
    }

    pub fn contains(&self, p: &Point) -> (r: bool)
        requires
            self.wf(),
        ensures
            r == self@.contains(*p),
    {
        self.points.contains(p)
    }

    /// The points inside `rect`, in ascending (y, x) order.
    pub fn range(&self, rect: &Rect) -> (r: Vec<&Point>)
        requires
            self.wf(),
        ensures
            deref_all(r@) == self.ordered().filter(inside(*rect)),
    {
        let keys = self.points.keys();
        let ghost ks = deref_all(keys@);
        let mut found: Vec<&Point> = Vec::new();
        let mut i: usize = 0;
        proof {
            reveal(Seq::filter);
            assert(ks.take(0) =~= Seq::<Point>::empty());
            assert(deref_all(found@) =~= Seq::<Point>::empty());
        }
        while i < keys.len()
            invariant
                i <= keys.len(),
                ks == deref_all(keys@),
                deref_all(found@) == ks.take(i as int).filter(inside(*rect)),
            decreases keys.len() - i,
        {
            let p = keys[i];
            let ghost before = found@;
            if rect.contains(p) {
                found.push(p);
            }
            proof {
                reveal(Seq::filter);
                let s = ks.take(i + 1);
                assert(s.drop_last() =~= ks.take(i as int));
                assert(s.last() == *p);
                if inside(*rect)(*p) {
                    assert(deref_all(found@) =~= deref_all(before).push(*p));
                } else {
                    assert(found@ == before);
                }
            }
            i = i + 1;
        }
        proof {
            assert(ks.take(keys.len() as int) =~= ks);
        }
        found
    }

    /// The point closest to `target`; among equally close points, the first
    /// in ascending (y, x) order. `None` only when the set is empty.
    pub fn nearest(&self, target: &Point) -> (r: Option<&Point>)
        requires
            self.wf(),
        ensures
            match r {
                None => self@.len() == 0,
                Some(p) => self@.contains(*p) && exists|i: int|
                    0 <= i < self.ordered().len() && self.ordered()[i] == *p && (forall|j: int|
                        0 <= j < self.ordered().len() ==> dist2(#[trigger] self.ordered()[j], *target)
                            >= dist2(*p, *target)) && (forall|j: int|
                        0 <= j < i ==> dist2(#[trigger] self.ordered()[j], *target) > dist2(
                            *p,
                            *target,
                        )),
            },
    {
        proof {
            self.lemma_ordered();
        }
        let keys = self.points.keys();
        let ghost ks = deref_all(keys@);
        let mut closest: Option<&Point> = None;
        let ghost mut best: int = 0;
        let mut best_d: i128 = 0;
        let mut i: usize = 0;
        while i < keys.len()
            invariant
                i <= keys.len(),
                ks == deref_all(keys@),
                ks.len() == keys@.len(),
                closest.is_none() <==> i == 0,
                match closest {
                    None => true,
                    Some(c) => {
                        &&& 0 <= best < i
                        &&& ks[best] == *c
                        &&& best_d == dist2(*c, *target)
                        &&& forall|j: int| 0 <= j < i ==> dist2(#[trigger] ks[j], *target) >= best_d
                        &&& forall|j: int| 0 <= j < best ==> dist2(#[trigger] ks[j], *target) > best_d
                    },
                },
            decreases keys.len() - i,
        {
            let p = keys[i];
            let d = p.distance_squared_to(target);
            if closest.is_none() || d < best_d {
                closest = Some(p);
                best_d = d;
                proof {
                    best = i as int;
                }
            }
            i = i + 1;
        }
        proof {
            if let Some(c) = closest {
                assert(self.ordered()[best] == *c);
                assert(self.ordered().contains(*c));
            } else {
                assert(self.ordered().len() == 0);
            }
        }
        closest
    }
}

} // verus!
