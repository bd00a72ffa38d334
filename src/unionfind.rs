use crate::conversions::AsUsizeConverter;
use vstd::prelude::*;

verus! {

/// A forest of parent links over `0 .. id.len()`: each link points inside the
/// forest, and along each link the ghost rank strictly grows, staying within
/// `bound`, so that following links always ends at a root.
pub open spec fn forest_ok(id: Seq<u32>, rank: Seq<nat>, bound: nat) -> bool {
    &&& rank.len() == id.len()
    &&& forall|i: int| 0 <= i < id.len() ==> #[trigger] id[i] < id.len()
    &&& forall|i: int| 0 <= i < id.len() ==> #[trigger] rank[i] <= bound
    &&& forall|i: int| 0 <= i < id.len() && id[i] != i ==> rank[i] < #[trigger] rank[id[i] as int]
}

/// The root reached from `i` by following parent links.
pub open spec fn root_of(id: Seq<u32>, rank: Seq<nat>, bound: nat, i: int) -> int
    decreases bound - rank[i],
    when forest_ok(id, rank, bound) && 0 <= i < id.len()
{
    if id[i] == i {
        i
    } else {
        root_of(id, rank, bound, id[i] as int)
    }
}

proof fn lemma_root(id: Seq<u32>, rank: Seq<nat>, bound: nat, i: int)
    requires
        forest_ok(id, rank, bound),
        0 <= i < id.len(),
    ensures
        0 <= root_of(id, rank, bound, i) < id.len(),
        id[root_of(id, rank, bound, i)] == root_of(id, rank, bound, i),
        root_of(id, rank, bound, id[i] as int) == root_of(id, rank, bound, i),
    decreases bound - rank[i],
{
    if id[i] != i {
        lemma_root(id, rank, bound, id[i] as int);
    }
}

/// The ranks after root `i` is linked below root `j`.
pub open spec fn linked_rank(rank: Seq<nat>, i: int, j: int) -> Seq<nat> {
    if rank[j] > rank[i] {
        rank
    } else {
        rank.update(j, rank[i] + 1)
    }
}

pub open spec fn linked_bound(bound: nat, rank: Seq<nat>, i: int) -> nat {
    if bound > rank[i] {
        bound
    } else {
        rank[i] + 1
    }
}

/// Linking root `i` below root `j` keeps the forest well formed and moves
/// every element of `i`'s tree to `j`'s root, leaving the others alone.
proof fn lemma_link(id: Seq<u32>, rank: Seq<nat>, bound: nat, i: int, j: int)
    requires
        forest_ok(id, rank, bound),
        0 <= i < id.len(),
        0 <= j < id.len(),
        id[i] == i,
        id[j] == j,
        i != j,
    ensures
        forest_ok(id.update(i, j as u32), linked_rank(rank, i, j), linked_bound(bound, rank, i)),
        forall|k: int|
            0 <= k < id.len() ==> #[trigger] root_of(
                id.update(i, j as u32),
                linked_rank(rank, i, j),
                linked_bound(bound, rank, i),
                k,
            ) == if root_of(id, rank, bound, k) == i {
                j
            } else {
                root_of(id, rank, bound, k)
            },
{
    let id2 = id.update(i, j as u32);
    let rank2 = linked_rank(rank, i, j);
    let bound2 = linked_bound(bound, rank, i);
    assert forall|k: int| 0 <= k < id2.len() && id2[k] != k implies rank2[k] < #[trigger] rank2[id2[k] as int] by {
        if k != i {
            assert(id2[k] == id[k]);
            if k == j {
                assert(id[j] == j);
            }
        }
    }
    assert forall|k: int| 0 <= k < id2.len() implies #[trigger] id2[k] < id2.len() by {
    }
    assert forall|k: int| 0 <= k < id2.len() implies #[trigger] rank2[k] <= bound2 by {
    }
    assert forall|k: int| 0 <= k < id.len() implies #[trigger] root_of(id2, rank2, bound2, k) == if root_of(id, rank, bound, k) == i {
        j
    } else {
        root_of(id, rank, bound, k)
    } by {
        lemma_link_at(id, rank, bound, i, j, k);
    }
}

proof fn lemma_link_at(id: Seq<u32>, rank: Seq<nat>, bound: nat, i: int, j: int, k: int)
    requires
        forest_ok(id, rank, bound),
        forest_ok(id.update(i, j as u32), linked_rank(rank, i, j), linked_bound(bound, rank, i)),
        0 <= i < id.len(),
        0 <= j < id.len(),
        id[i] == i,
        id[j] == j,
        i != j,
        0 <= k < id.len(),
    ensures
        root_of(id.update(i, j as u32), linked_rank(rank, i, j), linked_bound(bound, rank, i), k)
            == if root_of(id, rank, bound, k) == i {
            j
        } else {
            root_of(id, rank, bound, k)
        },
    decreases bound - rank[k],
{
    let id2 = id.update(i, j as u32);
    let rank2 = linked_rank(rank, i, j);
    let bound2 = linked_bound(bound, rank, i);
    if k == i {
        assert(root_of(id2, rank2, bound2, j) == j);
    } else if id[k] == k {
    } else {
        lemma_link_at(id, rank, bound, i, j, id[k] as int);
    }
}

/// Follows parent links from `i` to its root.
fn find_root(id: &Vec<u32>, rank: Ghost<Seq<nat>>, bound: Ghost<nat>, i: u32) -> (r: u32)
    requires
        forest_ok(id@, rank@, bound@),
        i < id@.len(),
    ensures
        r == root_of(id@, rank@, bound@, i as int),
{
    let mut i = i;
    let ghost i0 = i as int;
    while i != id[i.as_usize()]
        invariant
            forest_ok(id@, rank@, bound@),
            i < id@.len(),
            root_of(id@, rank@, bound@, i as int) == root_of(id@, rank@, bound@, i0),
        decreases bound@ - rank@[i as int],
    {
        i = id[i.as_usize()];
    }
    i
}

/// `0 .. size` as a vector.
fn identity_links(size: u32) -> (v: Vec<u32>)
    ensures
        v@.len() == size,
        forall|k: int| 0 <= k < size ==> #[trigger] v@[k] == k,
{
    let mut v: Vec<u32> = Vec::new();
    let mut k: u32 = 0;
    while k < size
        invariant
            k <= size,
            v@.len() == k,
            forall|m: int| 0 <= m < k ==> #[trigger] v@[m] == m,
        decreases size - k,
    {
        v.push(k);
        k = k + 1;
    }
    v
}

proof fn lemma_identity_roots(id: Seq<u32>, rank: Seq<nat>)
    requires
        forall|k: int| 0 <= k < id.len() ==> #[trigger] id[k] == k,
        rank == Seq::new(id.len(), |k: int| 0nat),
    ensures
        forest_ok(id, rank, 0),
        forall|k: int| 0 <= k < id.len() ==> #[trigger] root_of(id, rank, 0, k) == k,
{
}

/// Connectivity over the elements `0 .. size()`.
pub trait UnionFind {
    spec fn uf_wf(&self) -> bool;

    spec fn uf_size(&self) -> nat;

    /// The representative of `i`'s component.
    spec fn find(&self, i: int) -> int;

    /// Joins the components of `p` and `q`.
    fn union(&mut self, p: u32, q: u32)
        requires
            old(self).uf_wf(),
            p < old(self).uf_size(),
            q < old(self).uf_size(),
        ensures
            final(self).uf_wf(),
            final(self).uf_size() == old(self).uf_size(),
            final(self).find(p as int) == old(self).find(p as int) || final(self).find(p as int)
                == old(self).find(q as int),
            forall|k: int|
                0 <= k < old(self).uf_size() ==> #[trigger] final(self).find(k) == if old(self).find(k)
                    == old(self).find(p as int) || old(self).find(k) == old(self).find(q as int) {
                    final(self).find(p as int)
                } else {
                    old(self).find(k)
                },
    ;

    /// Whether `p` and `q` are in one component.
    fn connected(&self, p: u32, q: u32) -> (r: bool)
        requires
            self.uf_wf(),
            p < self.uf_size(),
            q < self.uf_size(),
        ensures
            r == (self.find(p as int) == self.find(q as int)),
    ;
}

/// Quick-union: each element links to a parent, roots name the components.
pub struct QuickUnionUF {
    id: Vec<u32>,
    rank: Ghost<Seq<nat>>,
    bound: Ghost<nat>,
}

impl QuickUnionUF {
    pub fn new(size: u32) -> (r: QuickUnionUF)
        ensures
            r.uf_wf(),
            r.uf_size() == size,
            forall|k: int| 0 <= k < size ==> #[trigger] r.find(k) == k,
    {
        let id = identity_links(size);
        let ghost rank = Seq::new(size as nat, |k: int| 0nat);
        proof {
            lemma_identity_roots(id@, rank);
        }
        QuickUnionUF { id: id, rank: Ghost(rank), bound: Ghost(0) }
    }

    fn root(&self, i: u32) -> (r: u32)
        requires
            self.uf_wf(),
            i < self.uf_size(),
        ensures
            r == self.find(i as int),
    {
        find_root(&self.id, self.rank, self.bound, i)
    }
}

impl UnionFind for QuickUnionUF {
    closed spec fn uf_wf(&self) -> bool {
        forest_ok(self.id@, self.rank@, self.bound@) && self.id@.len() <= u32::MAX
    }

    closed spec fn uf_size(&self) -> nat {
        self.id@.len()
    }

    closed spec fn find(&self, i: int) -> int {
        root_of(self.id@, self.rank@, self.bound@, i)
    }

    fn union(&mut self, p: u32, q: u32) {
        let i = self.root(p);
        let j = self.root(q);
        proof {
            lemma_root(self.id@, self.rank@, self.bound@, p as int);
            lemma_root(self.id@, self.rank@, self.bound@, q as int);
        }
        if i != j {
            let ghost id0 = self.id@;
            let ghost rank0 = self.rank@;
            let ghost bound0 = self.bound@;
            proof {
                lemma_link(id0, rank0, bound0, i as int, j as int);
            }
            self.id.set(i.as_usize(), j);
            self.rank = Ghost(linked_rank(rank0, i as int, j as int));
            self.bound = Ghost(linked_bound(bound0, rank0, i as int));
            proof {
                assert(self.id@ == id0.update(i as int, j as u32));
            }
        }
    }

    fn connected(&self, p: u32, q: u32) -> (r: bool) {
        self.root(p) == self.root(q)
    }
}

/// Quick-union that hangs the smaller tree below the larger one.
pub struct WeightedQuickUnionUF {
    id: Vec<u32>,
    sz: Vec<u32>,
    rank: Ghost<Seq<nat>>,
    bound: Ghost<nat>,
}

impl WeightedQuickUnionUF {
    pub fn new(size: u32) -> (r: WeightedQuickUnionUF)
        ensures
            r.uf_wf(),
            r.uf_size() == size,
            forall|k: int| 0 <= k < size ==> #[trigger] r.find(k) == k,
    {
        let id = identity_links(size);
        let mut sz: Vec<u32> = Vec::new();
        let mut k: u32 = 0;
        while k < size
            invariant
                k <= size,
                sz@.len() == k,
            decreases size - k,
        {
            sz.push(1);
            k = k + 1;
        }
        let ghost rank = Seq::new(size as nat, |k: int| 0nat);
        proof {
            lemma_identity_roots(id@, rank);
        }
        WeightedQuickUnionUF { id: id, sz: sz, rank: Ghost(rank), bound: Ghost(0) }
    }

    fn root(&self, i: u32) -> (r: u32)
        requires
            self.uf_wf(),
            i < self.uf_size(),
        ensures
            r == self.find(i as int),
    {
        find_root(&self.id, self.rank, self.bound, i)
    }
}

impl UnionFind for WeightedQuickUnionUF {
    closed spec fn uf_wf(&self) -> bool {
        forest_ok(self.id@, self.rank@, self.bound@) && self.id@.len() <= u32::MAX
            && self.sz@.len() == self.id@.len()
    }

    closed spec fn uf_size(&self) -> nat {
        self.id@.len()
    }

    closed spec fn find(&self, i: int) -> int {
        root_of(self.id@, self.rank@, self.bound@, i)
    }

    fn union(&mut self, p: u32, q: u32) {
        let i = self.root(p);
        let j = self.root(q);
        proof {
            lemma_root(self.id@, self.rank@, self.bound@, p as int);
            lemma_root(self.id@, self.rank@, self.bound@, q as int);
        }
        if i != j {
            let ghost id0 = self.id@;
            let ghost rank0 = self.rank@;
            let ghost bound0 = self.bound@;
            let si = self.sz[i.as_usize()];
            let sj = self.sz[j.as_usize()];
            let total = if si <= u32::MAX - sj {
                si + sj
            } else {
                u32::MAX
            };
            if si < sj {
                proof {
                    lemma_link(id0, rank0, bound0, i as int, j as int);
                }
                self.id.set(i.as_usize(), j);
                self.sz.set(j.as_usize(), total);
                self.rank = Ghost(linked_rank(rank0, i as int, j as int));
                self.bound = Ghost(linked_bound(bound0, rank0, i as int));
                proof {
                    assert(self.id@ == id0.update(i as int, j as u32));
                }
            } else {
                proof {
                    lemma_link(id0, rank0, bound0, j as int, i as int);
                }
                self.id.set(j.as_usize(), i);
                self.sz.set(i.as_usize(), total);
                self.rank = Ghost(linked_rank(rank0, j as int, i as int));
                self.bound = Ghost(linked_bound(bound0, rank0, j as int));
                proof {
                    assert(self.id@ == id0.update(j as int, i as u32));
                }
            }
        }
    }

    fn connected(&self, p: u32, q: u32) -> (r: bool) {
        self.root(p) == self.root(q)
    }
}

} // verus!
