use algs::redblacktree::RedBlackTree;
use quickcheck::{quickcheck, TestResult};
use rand::seq::SliceRandom;
use rand::thread_rng;

#[test]
fn size_and_empty() {
    let mut t = RedBlackTree::<i32, i32>::new();

    assert!(t.is_empty());
    assert_eq!(t.size(), 0);

    t.put(1, -1);
    assert!(!t.is_empty());
    assert_eq!(t.size(), 1);
    t.put(2, -2);
    assert!(!t.is_empty());
    assert_eq!(t.size(), 2);
}

#[test]
fn put_various_values() {
    fn prop(mut xs: Vec<i32>) -> bool {
        let mut t = RedBlackTree::<i32, String>::new();

        for i in xs.clone() {
            t.put(i, format!("Num {}", i));
        }

        xs.shuffle(&mut thread_rng());
        for i in xs {
            if t.get(&i) != Some(&format!("Num {}", i)) {
                return false;
            }
        }

        true
    }
    quickcheck(prop as fn(Vec<i32>) -> bool);
}

#[test]
fn delete_min() {
    fn prop(xs: Vec<i32>) -> TestResult {
        if xs.len() == 0 {
            return TestResult::discard();
        }

        let mut t = RedBlackTree::<i32, String>::new();

        for i in xs.clone() {
            t.put(i, format!("Num {}", i));
        }

        let min = xs.iter().min().expect("xs len is known to be > 0");
        t.delete_min();

        for i in xs.iter() {
            if i == min {
                if t.contains(&min) {
                    return TestResult::failed();
                }
                if t.get(&min) != None {
                    return TestResult::failed();
                }
            } else {
                if t.get(&i) != Some(&format!("Num {}", i)) {
                    return TestResult::failed();
                }
            }
        }

        TestResult::passed()
    }
    quickcheck(prop as fn(Vec<i32>) -> TestResult);
}

fn scenario_tree() -> RedBlackTree<i32, String> {
    let mut t = RedBlackTree::new();
    for k in [5, 3, 8, 1, 4] {
        t.put(k, format!("v{}", k));
    }
    t
}

#[test]
fn five_keys_in_order() {
    let t = scenario_tree();
    assert_eq!(t.size(), 5);
    assert_eq!(t.get(&3), Some(&"v3".to_string()));
    assert_eq!(t.min(), Some(&1));
    assert_eq!(t.max(), Some(&8));
    assert_eq!(t.keys(), vec![&1, &3, &4, &5, &8]);
}

#[test]
fn delete_min_of_five_keys() {
    let mut t = scenario_tree();
    t.delete_min();
    assert_eq!(t.get(&1), None);
    assert_eq!(t.size(), 4);
    assert_eq!(t.min(), Some(&3));
    for k in [3, 4, 5, 8] {
        assert_eq!(t.get(&k), Some(&format!("v{}", k)));
    }
}

#[test]
fn fresh_map_is_empty() {
    let t = RedBlackTree::<u64, u64>::new();
    assert_eq!(t.size(), 0);
    assert!(t.is_empty());
    assert_eq!(t.min(), None);
    assert_eq!(t.max(), None);
    assert!(t.keys().is_empty());
    assert!(!t.contains(&7));
}

#[test]
fn second_put_overwrites() {
    let mut t = RedBlackTree::<i64, &str>::new();
    t.put(10, "first");
    t.put(20, "other");
    assert_eq!(t.size(), 2);
    t.put(10, "second");
    assert_eq!(t.size(), 2);
    assert_eq!(t.get(&10), Some(&"second"));
    assert_eq!(t.get(&20), Some(&"other"));
}

#[test]
fn keys_between_reversed_bounds_is_empty() {
    let t = scenario_tree();
    assert!(t.keys_between(&5, &3).is_empty());
    assert_eq!(t.keys_between(&3, &5), vec![&3, &4, &5]);
    assert_eq!(t.keys_between(&2, &7), vec![&3, &4, &5]);
    assert_eq!(t.keys_between(&4, &4), vec![&4]);
    assert!(t.keys_between(&6, &7).is_empty());
}

#[test]
fn delete_min_until_empty() {
    let mut t = RedBlackTree::<i32, i32>::new();
    for k in 0..50 {
        t.put((k * 37) % 50, k);
    }
    for expected in 0..50 {
        assert_eq!(t.min(), Some(&expected));
        t.delete_min();
        assert!(t.check_state());
        assert_eq!(t.size(), 49 - expected);
    }
    assert!(t.is_empty());
}

#[test]
fn random_permutations_keep_keys_sorted() {
    let mut rng = thread_rng();
    let sorted: Vec<i32> = (0..200).map(|k| k * 3 - 250).collect();
    for _ in 0..100 {
        let mut keys = sorted.clone();
        keys.shuffle(&mut rng);
        let mut t = RedBlackTree::<i32, i32>::new();
        for &k in keys.iter() {
            t.put(k, -k);
            assert!(t.check_state());
        }
        assert_eq!(t.size(), 200);
        let got: Vec<i32> = t.keys().into_iter().copied().collect();
        assert_eq!(got, sorted);
        for &k in keys.iter() {
            assert_eq!(t.get(&k), Some(&-k));
        }
        assert_eq!(t.min(), Some(&-250));
        assert_eq!(t.max(), Some(&347));
    }
}
