use vstd::prelude::*;

verus! {

/// A link of a singly linked chain whose values can be taken out.
pub struct Node<E> {
    pub next: Option<Box<Node<E>>>,
    pub val: Option<E>,
}

/// The values of a chain, first to last.
pub open spec fn chain_vals<E>(link: Option<Box<Node<E>>>) -> Seq<Option<E>>
    decreases link,
{
    match link {
        None => Seq::empty(),
        Some(node) => seq![node.val] + chain_vals(node.next),
    }
}

/// Builds a new chain holding the values of `maybe_node` followed by `val`,
/// taking each value out of the old chain, which keeps its length and holds
/// only `None` afterwards.
pub fn put_after_node<E>(maybe_node: &mut Option<Box<Node<E>>>, val: E) -> (r: Node<E>)
    ensures
        chain_vals(Some(Box::new(r))) == chain_vals(*old(maybe_node)).push(Some(val)),
        chain_vals(*final(maybe_node)).len() == chain_vals(*old(maybe_node)).len(),
        forall|i: int|
            0 <= i < chain_vals(*final(maybe_node)).len() ==> #[trigger] chain_vals(
                *final(maybe_node),
            )[i] is None,
    decreases *old(maybe_node),
{
    match maybe_node.take() {
        None => {
            proof {
                assert(chain_vals(Some(Box::new(Node { next: None, val: Some(val) }))) =~= seq![
                    Some(val),
                ]);
            }
            Node { next: None, val: Some(val) }
        },
        Some(mut node) => {
            let ghost old_node = *node;
            let next = put_after_node(&mut node.next, val);
            let taken = node.val.take();
            let r = Node { next: Some(Box::new(next)), val: taken };
            *maybe_node = Some(node);
            proof {
                assert(chain_vals(Some(Box::new(r))) =~= chain_vals(Some(Box::new(old_node))).push(
                    Some(val),
                ));
                assert forall|i: int|
                    0 <= i < chain_vals(*maybe_node).len() implies #[trigger] chain_vals(*maybe_node)[i] is None by {
                    if i > 0 {
                        assert(chain_vals(*maybe_node)[i] == chain_vals(node.next)[i - 1]);
                    }
                }
            }
            r
        },
    }
}

} // verus!
