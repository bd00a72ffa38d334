use crate::conversions::TryU32Converter;
use crate::unionfind::{UnionFind, WeightedQuickUnionUF};
use crate::random::shuffle;
use vstd::prelude::*;

verus! {

/// An `n` by `n` grid of sites, each open or blocked. Two extra elements of
/// the union-find stand for a virtual top (`n * n`) and bottom (`n * n + 1`)
/// site, joined to the whole first and last row.
pub struct Percolation {
    n: usize,
    grid: Vec<bool>,
    qu: WeightedQuickUnionUF,
}

proof fn lemma_cell_index_unique(n: int, a: int, b: int, i: int, j: int)
    requires
        1 <= a <= n,
        1 <= b <= n,
        1 <= i <= n,
        1 <= j <= n,
        (a - 1) + (b - 1) * n == (i - 1) + (j - 1) * n,
    ensures
        a == i,
        b == j,
{
    if b < j {
        assert((b - 1) * n + n <= (j - 1) * n) by (nonlinear_arith)
            requires
                b < j,
                n >= 0,
        ;
    } else if b > j {
        assert((j - 1) * n + n <= (b - 1) * n) by (nonlinear_arith)
            requires
                j < b,
                n >= 0,
        ;
    }
}

impl Percolation {
    pub closed spec fn side(&self) -> nat {
        self.n as nat
    }

    /// Whether site `(i, j)` (1-based, column `i`, row `j`) is open.
    pub closed spec fn spec_is_open(&self, i: int, j: int) -> bool {
        self.grid@[(i - 1) + (j - 1) * self.n]
    }

    /// The virtual top and bottom are in one component.
    pub closed spec fn spec_percolates(&self) -> bool {
        self.qu.find(self.n * self.n) == self.qu.find(self.n * self.n + 1)
    }

    pub closed spec fn wf(&self) -> bool {
        &&& self.n * self.n + 2 <= u32::MAX
        &&& self.n <= 0x1_0000
        &&& self.grid@.len() == self.n * self.n
        &&& self.qu.uf_wf()
        &&& self.qu.uf_size() == self.n * self.n + 2
    }

    pub open spec fn spec_in_bounds(&self, i: int, j: int) -> bool {
        1 <= i <= self.side() && 1 <= j <= self.side()
    }

    pub fn new(n: usize) -> (p: Percolation)
        requires
            n * n + 2 <= u32::MAX,
        ensures
            p.wf(),
            p.side() == n,
            forall|i: int, j: int| p.spec_in_bounds(i, j) ==> !#[trigger] p.spec_is_open(i, j),
    {
        proof {
            assert(n <= 0x1_0000) by (nonlinear_arith)
                requires
                    n * n + 2 <= u32::MAX,
            ;
        }
        let mut grid: Vec<bool> = Vec::new();
        let mut k: usize = 0;
        while k < n * n
            invariant
                n * n + 2 <= u32::MAX,
                k <= n * n,
                grid@.len() == k,
                forall|m: int| 0 <= m < k ==> !#[trigger] grid@[m],
            decreases n * n - k,
        {
            grid.push(false);
            k = k + 1;
        }
        let mut q = WeightedQuickUnionUF::new((n * n + 2).try_u32());
        let mut i: usize = 1;
        while i < n + 1
            invariant
                n * n + 2 <= u32::MAX,
                n <= 0x1_0000,
                1 <= i <= n + 1,
                q.uf_wf(),
                q.uf_size() == n * n + 2,
            decreases n + 1 - i,
        {
            proof {
                assert(n * (n - 1) + i - 1 < n * n) by (nonlinear_arith)
                    requires
                        1 <= i <= n,
                ;
            }
            q.union((i - 1).try_u32(), (n * n).try_u32());
            q.union((n * (n - 1) + i - 1).try_u32(), (n * n + 1).try_u32());
            i = i + 1;
        }
        let p = Percolation { n: n, grid: grid, qu: q };
        proof {
            assert forall|i: int, j: int| p.spec_in_bounds(i, j) implies !#[trigger] p.spec_is_open(i, j) by {
                assert(0 <= (i - 1) + (j - 1) * n < n * n) by (nonlinear_arith)
                    requires
                        1 <= i <= n,
                        1 <= j <= n,
                ;
            }
        }
        p
    }

    fn in_bounds(&self, i: usize, j: usize) -> (r: bool)
        ensures
            r == self.spec_in_bounds(i as int, j as int),
    {
        i >= 1 && i <= self.n && j >= 1 && j <= self.n
    }

    fn to_index(&self, i: usize, j: usize) -> (r: usize)
        requires
            self.wf(),
            self.spec_in_bounds(i as int, j as int),
        ensures
            r == (i - 1) + (j - 1) * self.n,
            r < self.n * self.n,
    {
        proof {
            assert(0 <= (i - 1) + (j - 1) * self.n < self.n * self.n) by (nonlinear_arith)
                requires
                    1 <= i <= self.n,
                    1 <= j <= self.n,
            ;
        }
        (i - 1) + (j - 1) * self.n
    }

    /// Opens site `(i, j)` and joins it to its open neighbours.
    pub fn open(&mut self, i: usize, j: usize)
        requires
            old(self).wf(),
            old(self).spec_in_bounds(i as int, j as int),
        ensures
            final(self).wf(),
            final(self).side() == old(self).side(),
            final(self).spec_is_open(i as int, j as int),
            forall|a: int, b: int|
                final(self).spec_in_bounds(a, b) && (a != i || b != j) ==> #[trigger] final(self).spec_is_open(a, b)
                    == old(self).spec_is_open(a, b),
    {
        let index = self.to_index(i, j);
        self.grid.set(index, true);
        let neighbours = vec![(i, j - 1), (i, j + 1), (i + 1, j), (i - 1, j)];
        let mut k: usize = 0;
        while k < neighbours.len()
            invariant
                self.wf(),
                self.grid@ == old(self).grid@.update(index as int, true),
                self.n == old(self).n,
                index < self.n * self.n,
                neighbours@.len() == 4,
            decreases neighbours.len() - k,
        {
            let (ni, nj) = neighbours[k];
            if self.in_bounds(ni, nj) && self.is_open(ni, nj) {
                let neighbour_index = self.to_index(ni, nj);
                self.qu.union(index.try_u32(), neighbour_index.try_u32());
            }
            k = k + 1;
        }
        proof {
            assert forall|a: int, b: int|
                self.spec_in_bounds(a, b) && (a != i || b != j) implies #[trigger] self.spec_is_open(a, b)
                == old(self).spec_is_open(a, b) by {
                let n = self.n as int;
                assert(0 <= (a - 1) + (b - 1) * n < n * n) by (nonlinear_arith)
                    requires
                        1 <= a <= n,
                        1 <= b <= n,
                ;
                if (a - 1) + (b - 1) * n == (i - 1) + (j - 1) * n {
                    lemma_cell_index_unique(n, a, b, i as int, j as int);
                }
            }
        }
    }

    pub fn is_open(&self, i: usize, j: usize) -> (r: bool)
        requires
            self.wf(),
            self.spec_in_bounds(i as int, j as int),
        ensures
            r == self.spec_is_open(i as int, j as int),
    {
        self.grid[self.to_index(i, j)]
    }

    /// Whether an open path joins the top row to the bottom row.
    pub fn percolates(&self) -> (r: bool)
        requires
            self.wf(),
        ensures
            r == self.spec_percolates(),
    {
        self.qu.connected((self.n * self.n).try_u32(), (self.n * self.n + 1).try_u32())
    }
}

/// Opens the sites of `to_open`, last first, until the grid percolates or no
/// site is left; returns how many were opened.
pub fn open_until_percolation(perc: &mut Percolation, to_open: &mut Vec<(usize, usize)>) -> (opened:
    usize)
    requires
        old(perc).wf(),
        forall|k: int|
            0 <= k < old(to_open)@.len() ==> old(perc).spec_in_bounds(
                #[trigger] old(to_open)@[k].0 as int,
                old(to_open)@[k].1 as int,
            ),
    ensures
        final(perc).wf(),
        final(perc).side() == old(perc).side(),
        final(perc).spec_percolates() || final(to_open)@.len() == 0,
        final(to_open)@ == old(to_open)@.take(final(to_open)@.len() as int),
        opened + final(to_open)@.len() == old(to_open)@.len(),
        forall|k: int|
            final(to_open)@.len() <= k < old(to_open)@.len() ==> final(perc).spec_is_open(
                #[trigger] old(to_open)@[k].0 as int,
                old(to_open)@[k].1 as int,
            ),
{
    let ghost all = to_open@;
    assert(all.len() == to_open.len());
    let mut opened: usize = 0;
    while !perc.percolates() && to_open.len() > 0
        invariant
            perc.wf(),
            perc.side() == old(perc).side(),
            to_open@ == all.take(to_open@.len() as int),
            to_open@.len() <= all.len(),
            all.len() <= usize::MAX,
            opened + to_open@.len() == all.len(),
            forall|k: int|
                0 <= k < all.len() ==> perc.spec_in_bounds(
                    #[trigger] all[k].0 as int,
                    all[k].1 as int,
                ),
            forall|k: int|
                to_open@.len() <= k < all.len() ==> perc.spec_is_open(
                    #[trigger] all[k].0 as int,
                    all[k].1 as int,
                ),
        decreases to_open@.len(),
    {
        let ghost before = to_open@;
        let (i, j) = to_open.pop().unwrap();
        proof {
            assert(to_open@ =~= all.take(to_open@.len() as int));
            assert(all[to_open@.len() as int] == (i, j));
        }
        perc.open(i, j);
        assert(opened + to_open@.len() + 1 == all.len());
        opened = opened + 1;
    }
    opened
}

/// Opens the sites of an `n` by `n` grid in random order until it
/// percolates; returns how many sites were opened.
pub fn simulate_open_sites(n: usize) -> (opened: usize)
    requires
        n * n + 2 <= u32::MAX,
    ensures
        opened <= n * n,
{
    let mut to_open: Vec<(usize, usize)> = Vec::with_capacity(n * n);
    let mut i: usize = 1;
    proof {
        assert(n <= 0x1_0000) by (nonlinear_arith)
            requires
                n * n + 2 <= u32::MAX,
        ;
    }
    while i < n + 1
        invariant
            1 <= i <= n + 1,
            n <= 0x1_0000,
            to_open@.len() == (i - 1) * n,
            forall|k: int|
                0 <= k < to_open@.len() ==> 1 <= (#[trigger] to_open@[k]).0 <= n && 1
                    <= to_open@[k].1 <= n,
        decreases n + 1 - i,
    {
        let mut j: usize = 1;
        while j < n + 1
            invariant
                1 <= i <= n,
                1 <= j <= n + 1,
                n <= 0x1_0000,
                to_open@.len() == (i - 1) * n + (j - 1),
                forall|k: int|
                    0 <= k < to_open@.len() ==> 1 <= (#[trigger] to_open@[k]).0 <= n && 1
                        <= to_open@[k].1 <= n,
            decreases n + 1 - j,
        {
            proof {
                assert((i - 1) * n + (j - 1) < n * n) by (nonlinear_arith)
                    requires
                        1 <= i <= n,
                        1 <= j <= n,
                ;
            }
            to_open.push((i, j));
            j = j + 1;
        }
        proof {
            assert((i - 1) * n + n == i * n) by (nonlinear_arith);
        }
        i = i + 1;
    }
    proof {
        assert((n + 1 - 1) * n == n * n) by (nonlinear_arith);
    }
    let ghost before = to_open@;
    shuffle(&mut to_open);
    proof {
        to_open@.to_multiset_ensures();
        before.to_multiset_ensures();
        assert forall|k: int| 0 <= k < to_open@.len() implies 1 <= (#[trigger] to_open@[k]).0 <= n && 1
            <= to_open@[k].1 <= n by {
            let x = to_open@[k];
            assert(to_open@.contains(x));
            assert(before.to_multiset().count(x) > 0);
            assert(before.contains(x));
            let idx = choose|idx: int| 0 <= idx < before.len() && before[idx] == x;
            assert(1 <= before[idx].0 <= n);
        }
    }
    let mut perc = Percolation::new(n);
    open_until_percolation(&mut perc, &mut to_open)
}

} // verus!
