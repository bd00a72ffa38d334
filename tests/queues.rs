use algs::deque::Deque;
use algs::linkedlist::LinkedList;
use algs::randomizedqueue::RandomQueue;

#[test]
fn deque_adding_should_increase_size() {
    let mut sut = Deque::<u32>::new();
    sut.add_first(0);
    sut.add_first(1);
    assert_eq!(sut.len(), 2);
}

#[test]
fn deque_removing_should_get_previous_item_added() {
    let mut sut = Deque::<u32>::new();
    sut.add_first(0);
    sut.add_first(1);
    assert_eq!(sut.remove_first(), Some(1));
    assert_eq!(sut.remove_first(), Some(0));
}

#[test]
fn adding_last_and_removing_first_should_give_queue() {
    let mut sut = Deque::<u32>::new();
    sut.add_last(0);
    sut.add_last(1);
    assert_eq!(sut.remove_first(), Some(0));
    assert_eq!(sut.remove_first(), Some(1));
}

#[test]
fn adding_first_and_removing_last_should_give_queue() {
    let mut sut = Deque::<u32>::new();
    sut.add_first(0);
    sut.add_first(1);
    assert_eq!(sut.remove_last(), Some(0));
    assert_eq!(sut.remove_last(), Some(1));
}

#[test]
fn deque_removing_from_empty_should_get_none() {
    let mut sut = Deque::<u32>::new();
    assert_eq!(sut.remove_first(), None);
    assert_eq!(sut.remove_last(), None);
}

#[test]
fn deque_removing_should_decrease_size() {
    let mut sut = Deque::<u32>::new();
    sut.add_first(1);
    sut.remove_first();
    assert_eq!(sut.len(), 0);
}

#[test]
fn deque_iteration_should_work() {
    let mut sut = Deque::<usize>::new();
    sut.add_first(1);
    sut.add_first(2);
    sut.add_first(3);
    for (i, &e) in sut.iter().enumerate() {
        assert_eq!(sut.len() - i, e);
    }
}

#[test]
fn deque_mixed_ends() {
    let mut sut = Deque::<i32>::new();
    sut.add_last(0);
    sut.add_first(-1);
    sut.add_last(1);
    sut.add_last(2);
    sut.add_first(-2);
    let items: Vec<i32> = sut.iter().copied().collect();
    assert_eq!(items, vec![-2, -1, 0, 1, 2]);

    assert_eq!(sut.remove_last().unwrap(), 2);
    assert_eq!(sut.remove_first().unwrap(), -2);
    assert_eq!(sut.len(), 3);
}

#[test]
fn linkedlist_adding_should_increase_size() {
    let mut sut = LinkedList::<u32>::new();
    sut.add_first(0);
    sut.add_first(1);
    assert_eq!(sut.len(), 2);
}

#[test]
fn linkedlist_removing_should_get_previous_item_added() {
    let mut sut = LinkedList::<u32>::new();
    sut.add_first(0);
    sut.add_first(1);
    assert_eq!(sut.remove_first(), Some(1));
    assert_eq!(sut.remove_first(), Some(0));
}

#[test]
fn linkedlist_removing_from_empty_should_get_none() {
    let mut sut = LinkedList::<u32>::new();
    assert_eq!(sut.remove_first(), None);
}

#[test]
fn linkedlist_removing_should_decrease_size() {
    let mut sut = LinkedList::<u32>::new();
    sut.add_first(1);
    sut.remove_first();
    assert_eq!(sut.len(), 0);
}

#[test]
fn linkedlist_iteration_should_work() {
    let mut sut = LinkedList::<usize>::new();
    sut.add_first(1);
    sut.add_first(2);
    sut.add_first(3);
    for (i, &e) in sut.iter().enumerate() {
        assert_eq!(sut.len() - i, e);
    }
}

#[test]
fn iteration_includes_all_items_once() {
    let mut sut = RandomQueue::new();
    let inserted = vec![1, 2, 3, 4];
    for &i in inserted.iter() {
        sut.enqueue(i.clone());
    }

    let mut randomized = sut.iter().collect::<Vec<u32>>();
    randomized.as_mut_slice().sort();

    assert_eq!(randomized, inserted);
}

#[test]
fn random_queue_dequeues_every_item_once() {
    let mut sut = RandomQueue::new();
    assert_eq!(sut.dequeue(), None);
    assert_eq!(sut.sample(), None);
    for i in 0..10u32 {
        sut.enqueue(i);
    }
    assert_eq!(sut.len(), 10);
    let s = sut.sample().unwrap();
    assert!(s < 10);
    let mut out = Vec::new();
    while let Some(x) = sut.dequeue() {
        out.push(x);
    }
    out.sort();
    assert_eq!(out, (0..10).collect::<Vec<u32>>());
    assert_eq!(sut.len(), 0);
}
