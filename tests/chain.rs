use algs::chain::{put_after_node, Node};

fn values(mut link: &Option<Box<Node<i32>>>) -> Vec<Option<i32>> {
    let mut out = Vec::new();
    while let Some(node) = link {
        out.push(node.val);
        link = &node.next;
    }
    out
}

#[test]
fn put_after_empty_chain() {
    let mut empty: Option<Box<Node<i32>>> = None;
    let r = put_after_node(&mut empty, 7);
    assert_eq!(values(&Some(Box::new(r))), vec![Some(7)]);
    assert!(empty.is_none());
}

#[test]
fn put_after_moves_values_to_new_chain() {
    let mut chain = Some(Box::new(Node {
        val: Some(1),
        next: Some(Box::new(Node { val: Some(2), next: None })),
    }));
    let r = put_after_node(&mut chain, 3);
    assert_eq!(values(&Some(Box::new(r))), vec![Some(1), Some(2), Some(3)]);
    assert_eq!(values(&chain), vec![None, None]);
}
