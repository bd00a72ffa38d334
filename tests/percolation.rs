use algs::percolation::Percolation;
use algs::unionfind::{QuickUnionUF, UnionFind, WeightedQuickUnionUF};

#[test]
fn percolation_all_open_at_start() {
    let n = 10usize;

    let perc = Percolation::new(n);
    for i in 1..n {
        for j in 1..n {
            assert!(!perc.is_open(i, j));
        }
    }
}

#[test]
fn percolation_opening_works_properly() {
    let mut perc = Percolation::new(10usize);

    perc.open(1, 1);
    assert!(perc.is_open(1, 1));

    perc.open(10, 10);
    assert!(perc.is_open(10, 10));

    for i in 2..9usize {
        for j in 2..9usize {
            assert!(!perc.is_open(i, j));
        }
    }
}

#[test]
fn open_column_percolates() {
    let mut perc = Percolation::new(3);
    assert!(!perc.percolates());
    perc.open(2, 1);
    perc.open(2, 2);
    assert!(!perc.percolates());
    perc.open(1, 3);
    assert!(!perc.percolates());
    perc.open(2, 3);
    assert!(perc.percolates());
}

#[test]
fn quick_union_joins_components() {
    let mut qu = QuickUnionUF::new(6);
    assert!(!qu.connected(0, 1));
    qu.union(0, 1);
    qu.union(2, 3);
    assert!(qu.connected(1, 0));
    assert!(!qu.connected(1, 2));
    qu.union(1, 3);
    assert!(qu.connected(0, 2));
    assert!(!qu.connected(0, 4));
    assert!(qu.connected(5, 5));
}

#[test]
fn weighted_quick_union_joins_components() {
    let mut qu = WeightedQuickUnionUF::new(25);
    for k in 0..24u32 {
        if k % 5 != 4 {
            qu.union(k, k + 1);
        }
    }
    for a in 0..25u32 {
        for b in 0..25u32 {
            assert_eq!(qu.connected(a, b), a / 5 == b / 5);
        }
    }
    qu.union(3, 22);
    assert!(qu.connected(0, 24));
    assert!(!qu.connected(0, 5));
}

#[test]
fn simulation_opens_at_most_every_site() {
    // a single site is joined to both the virtual top and bottom from the start
    assert_eq!(algs::percolation::simulate_open_sites(1), 0);
    for n in 2..6usize {
        let opened = algs::percolation::simulate_open_sites(n);
        assert!(opened >= n && opened <= n * n);
    }
}

#[test]
fn opening_in_order_stops_at_percolation() {
    // sites are (column, row); the last one is opened first
    let mut perc = Percolation::new(2);
    let mut order = vec![(2, 2), (1, 1), (1, 2), (2, 1)];
    let opened = algs::percolation::open_until_percolation(&mut perc, &mut order);
    assert_eq!(opened, 3);
    assert_eq!(order, vec![(2, 2)]);
    assert!(perc.percolates());
    assert!(!perc.is_open(2, 2));
}
