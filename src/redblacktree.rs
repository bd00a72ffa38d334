use crate::key_order::{lemma_lt_asymmetric, lemma_lt_transitive, lt, KeyOrder};
use std::cmp::Ordering;
use vstd::prelude::*;

verus! {

/// The colour of the link from a node's parent to the node.
#[derive(PartialEq, Eq, Structural, Clone, Copy, Debug)]
pub enum Color {
    Red,
    Black,
}

impl Color {
    /// If red, change to black. If black, change to red.
    fn invert(&mut self)
        ensures
            *final(self) == old(self).opposite_spec(),
    {
        let opposite = self.opposite();
        *self = opposite;
    }

    pub open spec fn opposite_spec(self) -> Color {
        match self {
            Color::Red => Color::Black,
            Color::Black => Color::Red,
        }
    }

    /// If red, return black. If black, return red.
    fn opposite(&self) -> (c: Color)
        ensures
            c == self.opposite_spec(),
    {
        match self {
            Color::Red => Color::Black,
            Color::Black => Color::Red,
        }
    }
}

pub struct Node<K, V> {
    pub key: K,
    pub value: V,
    pub left: Option<Box<Node<K, V>>>,
    pub right: Option<Box<Node<K, V>>>,
    pub color: Color,
    /// Number of nodes in the subtree rooted here.
    pub n: i32,
}

pub type Link<K, V> = Option<Box<Node<K, V>>>;

/// The key/value pairs held in a subtree.
pub open spec fn link_map<K, V>(t: Link<K, V>) -> Map<K, V>
    decreases t,
{
    match t {
        None => Map::empty(),
        Some(node) => link_map(node.left).union_prefer_right(link_map(node.right)).insert(
            node.key,
            node.value,
        ),
    }
}

/// The number of nodes of a subtree.
pub open spec fn count<K, V>(t: Link<K, V>) -> nat
    decreases t,
{
    match t {
        None => 0,
        Some(node) => count(node.left) + count(node.right) + 1,
    }
}

/// Search-tree order: every key of a left subtree is below the node's key,
/// every key of a right subtree above it.
pub open spec fn bst<K: KeyOrder, V>(t: Link<K, V>) -> bool
    decreases t,
{
    match t {
        None => true,
        Some(node) => {
            &&& forall|k: K| #[trigger]
                link_map(node.left).contains_key(k) ==> lt(k, node.key)
            &&& forall|k: K| #[trigger]
                link_map(node.right).contains_key(k) ==> lt(node.key, k)
            &&& bst(node.left)
            &&& bst(node.right)
        },
    }
}

/// Every cached subtree size equals the subtree's node count.
pub open spec fn sized<K, V>(t: Link<K, V>) -> bool
    decreases t,
{
    match t {
        None => true,
        Some(node) => node.n as int == count(t) && sized(node.left) && sized(node.right),
    }
}

pub open spec fn red<K, V>(t: Link<K, V>) -> bool {
    match t {
        None => false,
        Some(node) => node.color == Color::Red,
    }
}

/// A left-leaning red-black subtree in which every path down to an absent
/// child passes through exactly `h` black nodes: no red right link, no red
/// node with a red left child.
pub open spec fn rb<K, V>(t: Link<K, V>, h: nat) -> bool
    decreases t,
{
    match t {
        None => h == 0,
        Some(node) => {
            &&& !red(node.right)
            &&& (node.color == Color::Red ==> !red(node.left))
            &&& if node.color == Color::Black {
                h >= 1 && rb(node.left, (h - 1) as nat) && rb(node.right, (h - 1) as nat)
            } else {
                rb(node.left, h) && rb(node.right, h)
            }
        },
    }
}

/// Black nodes along the left spine.
pub open spec fn black_height<K, V>(t: Link<K, V>) -> nat
    decreases t,
{
    match t {
        None => 0,
        Some(node) => black_height(node.left) + if node.color == Color::Black {
            1nat
        } else {
            0nat
        },
    }
}

proof fn lemma_rb_height<K, V>(t: Link<K, V>, h: nat)
    requires
        rb(t, h),
    ensures
        black_height(t) == h,
    decreases t,
{
    if let Some(node) = t {
        if node.color == Color::Black {
            lemma_rb_height(node.left, (h - 1) as nat);
        } else {
            lemma_rb_height(node.left, h);
        }
    }
}

/// In a search tree the node count is the number of distinct keys.
proof fn lemma_count_is_len<K: KeyOrder, V>(t: Link<K, V>)
    requires
        bst(t),
    ensures
        link_map(t).dom().finite(),
        link_map(t).len() == count(t),
    decreases t,
{
    if let Some(node) = t {
        lemma_count_is_len(node.left);
        lemma_count_is_len(node.right);
        let l = link_map(node.left).dom();
        let r = link_map(node.right).dom();
        assert(l.disjoint(r)) by {
            assert forall|k: K| l.contains(k) implies !r.contains(k) by {
                if r.contains(k) {
                    lemma_lt_asymmetric(k, node.key);
                    lemma_lt_transitive(k, node.key, k);
                }
            }
        }
        vstd::set_lib::lemma_set_disjoint_lens(l, r);
        assert(link_map(node.left).union_prefer_right(link_map(node.right)).dom() =~= l + r);
        assert(!(l + r).contains(node.key)) by {
            if l.contains(node.key) {
                assert(lt(node.key, node.key));
            }
            if r.contains(node.key) {
                assert(lt(node.key, node.key));
            }
        }
    }
}

/// The cached size of a subtree's root, zero when absent.
pub open spec fn link_n<K, V>(t: Link<K, V>) -> int {
    match t {
        None => 0,
        Some(node) => node.n as int,
    }
}

pub open spec fn boxed<K, V>(node: Node<K, V>) -> Link<K, V> {
    Some(Box::new(node))
}

/// The node that `rotate_left` makes of `h`.
pub open spec fn rotated_left<K, V>(h: Node<K, V>) -> Node<K, V> {
    let x = *h.right.unwrap();
    let lower = Node {
        key: h.key,
        value: h.value,
        left: h.left,
        right: x.left,
        color: Color::Red,
        n: (link_n(h.left) + link_n(x.left) + 1) as i32,
    };
    Node { key: x.key, value: x.value, left: boxed(lower), right: x.right, color: h.color, n: h.n }
}

/// The node that `rotate_right` makes of `h`.
pub open spec fn rotated_right<K, V>(h: Node<K, V>) -> Node<K, V> {
    let x = *h.left.unwrap();
    let lower = Node {
        key: h.key,
        value: h.value,
        left: x.right,
        right: h.right,
        color: Color::Red,
        n: (link_n(x.right) + link_n(h.right) + 1) as i32,
    };
    Node { key: x.key, value: x.value, left: x.left, right: boxed(lower), color: h.color, n: h.n }
}

pub open spec fn recolored<K, V>(t: Link<K, V>) -> Link<K, V> {
    match t {
        None => None,
        Some(node) => boxed(Node { color: node.color.opposite_spec(), ..*node }),
    }
}

/// The node that `flip_colors` makes of `h`: it and both children change colour.
pub open spec fn flipped<K, V>(h: Node<K, V>) -> Node<K, V> {
    Node {
        color: h.color.opposite_spec(),
        left: recolored(h.left),
        right: recolored(h.right),
        ..h
    }
}

proof fn lemma_recolored<K: KeyOrder, V>(t: Link<K, V>)
    ensures
        leftmost(recolored(t)) == leftmost(t),
        link_map(recolored(t)) == link_map(t),
        count(recolored(t)) == count(t),
        bst(recolored(t)) == bst(t),
        sized(recolored(t)) == sized(t),
        link_n(recolored(t)) == link_n(t),
{
}

/// A red node whose children are left-leaning red-black subtrees of black
/// height `h`; its left child may be red as well. Insertion below a red node
/// leaves this shape, which the parent then repairs.
pub open spec fn red_leaning<K, V>(node: Node<K, V>, h: nat) -> bool {
    &&& node.color == Color::Red
    &&& !red(node.right)
    &&& rb(node.left, h)
    &&& rb(node.right, h)
}

/// Black height of the children of a node whose own black height is `h`.
pub open spec fn child_height<K, V>(node: Node<K, V>, h: nat) -> nat {
    if node.color == Color::Black {
        (h - 1) as nat
    } else {
        h
    }
}

/// The three local repairs applied, in order, on the way back up from an
/// insertion: lean a red right link left, split a red-red left chain, and
/// push a red pair up to the parent.
pub open spec fn fixed_up<K, V>(n1: Node<K, V>) -> Node<K, V> {
    let n2 = if red(n1.right) && !red(n1.left) {
        rotated_left(n1)
    } else {
        n1
    };
    let n3 = if red(n2.left) && red(n2.left.unwrap().left) {
        rotated_right(n2)
    } else {
        n2
    };
    if red(n3.left) && red(n3.right) {
        flipped(n3)
    } else {
        n3
    }
}

proof fn lemma_fixed_up_black<K, V>(n1: Node<K, V>, h: nat)
    requires
        n1.color == Color::Black,
        h >= 1,
        rb(n1.right, (h - 1) as nat),
        rb(n1.left, (h - 1) as nat) || (red(n1.left) && red_leaning(*n1.left.unwrap(), (h - 1) as nat)
            && !red(n1.right)),
    ensures
        rb(boxed(fixed_up(n1)), h),
{
    let hc = (h - 1) as nat;
    if red(n1.right) && !red(n1.left) {
        let x = *n1.right.unwrap();
        assert(rb(x.left, hc) && rb(x.right, hc));
        let n2 = rotated_left(n1);
        assert(rb(n2.left, hc));
        assert(!(red(n2.left) && red(n2.left.unwrap().left)));
        assert(!(red(n2.left) && red(n2.right)));
        assert(fixed_up(n1) == n2);
        assert(rb(boxed(n2), h));
    } else if red(n1.left) && red(n1.left.unwrap().left) {
        let l = *n1.left.unwrap();
        let ll = *l.left.unwrap();
        assert(rb(ll.left, hc) && rb(ll.right, hc));
        let n3 = rotated_right(n1);
        assert(rb(n3.right, hc));
        let f = flipped(n3);
        assert(red(n3.left) && red(n3.right));
        assert(fixed_up(n1) == f);
        assert(rb(f.left, h));
        assert(rb(f.right, h));
        assert(rb(boxed(f), h));
    } else if red(n1.left) && red(n1.right) {
        let l = *n1.left.unwrap();
        let r = *n1.right.unwrap();
        assert(rb(l.left, hc) && rb(l.right, hc));
        assert(rb(r.left, hc) && rb(r.right, hc));
        let f = flipped(n1);
        assert(fixed_up(n1) == f);
        assert(rb(f.left, h));
        assert(rb(f.right, h));
        assert(rb(boxed(f), h));
    } else {
        assert(fixed_up(n1) == n1);
        assert(rb(n1.left, hc));
        assert(rb(boxed(n1), h));
    }
}

proof fn lemma_fixed_up_red<K, V>(n1: Node<K, V>, h: nat)
    requires
        n1.color == Color::Red,
        rb(n1.left, h),
        rb(n1.right, h),
        !(red(n1.left) && red(n1.right)),
    ensures
        red_leaning(fixed_up(n1), h),
{
    if red(n1.right) {
        let x = *n1.right.unwrap();
        assert(rb(x.left, h) && rb(x.right, h));
        let n2 = rotated_left(n1);
        assert(rb(n2.left, h));
    }
}

/// The smallest key of a non-empty subtree: the end of its left spine.
pub open spec fn leftmost<K, V>(t: Link<K, V>) -> K
    decreases t,
{
    match t {
        None => arbitrary(),
        Some(node) => if node.left.is_none() {
            node.key
        } else {
            leftmost(node.left)
        },
    }
}

/// The largest key of a non-empty subtree: the end of its right spine.
pub open spec fn rightmost<K, V>(t: Link<K, V>) -> K
    decreases t,
{
    match t {
        None => arbitrary(),
        Some(node) => if node.right.is_none() {
            node.key
        } else {
            rightmost(node.right)
        },
    }
}

/// `k` is a key of `m` and no key of `m` lies below it.
pub open spec fn is_least<K: KeyOrder, V>(m: Map<K, V>, k: K) -> bool {
    m.contains_key(k) && forall|j: K| #[trigger] m.contains_key(j) ==> k.le(j)
}

/// `k` is a key of `m` and no key of `m` lies above it.
pub open spec fn is_greatest<K: KeyOrder, V>(m: Map<K, V>, k: K) -> bool {
    m.contains_key(k) && forall|j: K| #[trigger] m.contains_key(j) ==> j.le(k)
}

proof fn lemma_leftmost_least<K: KeyOrder, V>(t: Link<K, V>)
    requires
        bst(t),
        t.is_some(),
    ensures
        is_least(link_map(t), leftmost(t)),
    decreases t,
{
    let node = t.unwrap();
    let m = leftmost(t);
    assert(link_map(t) == link_map(node.left).union_prefer_right(link_map(node.right)).insert(
        node.key,
        node.value,
    ));
    if node.left.is_none() {
        assert(link_map(node.left) =~= Map::empty());
    }
    if node.left.is_some() {
        lemma_leftmost_least(node.left);
    }
    assert forall|j: K| #[trigger] link_map(t).contains_key(j) implies m.le(j) by {
        if node.left.is_some() {
            assert(link_map(node.left).contains_key(m));
            assert(lt(m, node.key));
            if j == node.key {
            } else if link_map(node.right).contains_key(j) {
                lemma_lt_transitive(m, node.key, j);
            } else {
                assert(link_map(node.left).contains_key(j));
            }
        } else {
            if j == node.key {
                K::lemma_reflexive(j);
            } else {
                assert(link_map(node.right).contains_key(j));
                assert(lt(node.key, j));
            }
        }
    }
}

proof fn lemma_rightmost_greatest<K: KeyOrder, V>(t: Link<K, V>)
    requires
        bst(t),
        t.is_some(),
    ensures
        is_greatest(link_map(t), rightmost(t)),
    decreases t,
{
    let node = t.unwrap();
    let m = rightmost(t);
    assert(link_map(t) == link_map(node.left).union_prefer_right(link_map(node.right)).insert(
        node.key,
        node.value,
    ));
    if node.right.is_none() {
        assert(link_map(node.right) =~= Map::empty());
    }
    if node.right.is_some() {
        lemma_rightmost_greatest(node.right);
    }
    assert forall|j: K| #[trigger] link_map(t).contains_key(j) implies j.le(m) by {
        if node.right.is_some() {
            assert(link_map(node.right).contains_key(m));
            assert(lt(node.key, m));
            if j == node.key {
            } else if link_map(node.left).contains_key(j) {
                lemma_lt_transitive(j, node.key, m);
            } else {
                assert(link_map(node.right).contains_key(j));
            }
        } else {
            if j == node.key {
                K::lemma_reflexive(j);
            } else {
                assert(link_map(node.left).contains_key(j));
                assert(lt(j, node.key));
            }
        }
    }
}

/// The node that `move_red_left` makes of `h`.
pub open spec fn moved_red_left<K, V>(h: Node<K, V>) -> Node<K, V> {
    let f = flipped(h);
    if red(f.right.unwrap().left) {
        flipped(rotated_left(Node { right: boxed(rotated_right(*f.right.unwrap())), ..f }))
    } else {
        f
    }
}

pub open spec fn balance_stage2<K, V>(h: Node<K, V>) -> Node<K, V> {
    if red(h.right) {
        rotated_left(h)
    } else {
        h
    }
}

pub open spec fn balance_stage3<K, V>(h: Node<K, V>) -> Node<K, V> {
    let n2 = balance_stage2(h);
    if red(n2.left) && red(n2.left.unwrap().left) {
        rotated_right(n2)
    } else {
        n2
    }
}

/// The repairs applied on the way back up from a deletion.
pub open spec fn rebalanced<K, V>(h: Node<K, V>) -> Node<K, V> {
    let n3 = balance_stage3(h);
    if red(n3.left) && red(n3.right) {
        flipped(n3)
    } else {
        n3
    }
}

/// Where `balance` flips colours, the node is black and both children red.
pub open spec fn flip_safe<K, V>(h: Node<K, V>) -> bool {
    let n3 = balance_stage3(h);
    (red(n3.left) && red(n3.right)) ==> n3.color == Color::Black
}

/// Equal but for the cached size.
pub open spec fn same_but_size<K, V>(a: Node<K, V>, b: Node<K, V>) -> bool {
    &&& a.key == b.key
    &&& a.value == b.value
    &&& a.left == b.left
    &&& a.right == b.right
    &&& a.color == b.color
}

proof fn lemma_rebalanced_black<K, V>(b: Node<K, V>, h: nat)
    requires
        b.color == Color::Black,
        h >= 1,
        rb(b.left, (h - 1) as nat),
        rb(b.right, (h - 1) as nat),
    ensures
        flip_safe(b),
        rb(boxed(rebalanced(b)), h),
        !red(b.right) ==> rebalanced(b).color == Color::Black,
{
    let hc = (h - 1) as nat;
    if red(b.right) {
        let x = *b.right.unwrap();
        assert(rb(x.left, hc) && rb(x.right, hc));
        let n2 = rotated_left(b);
        assert(balance_stage2(b) == n2);
        if red(b.left) {
            let l = *b.left.unwrap();
            assert(rb(l.left, hc) && rb(l.right, hc));
            let n3 = rotated_right(n2);
            assert(balance_stage3(b) == n3);
            assert(rb(n3.right, hc));
            let f = flipped(n3);
            assert(rebalanced(b) == f);
            assert(rb(f.left, h));
            assert(rb(f.right, h));
            assert(rb(boxed(f), h));
        } else {
            assert(rb(n2.left, hc));
            assert(balance_stage3(b) == n2);
            assert(rebalanced(b) == n2);
            assert(rb(boxed(n2), h));
        }
    } else {
        if red(b.left) {
            let l = *b.left.unwrap();
            assert(!red(l.left));
        }
        assert(balance_stage3(b) == b);
        assert(rebalanced(b) == b);
    }
}

proof fn lemma_rebalanced_red<K, V>(b: Node<K, V>, h: nat)
    requires
        b.color == Color::Red,
        !red(b.left),
        !red(b.right),
        rb(b.left, h),
        rb(b.right, h),
    ensures
        flip_safe(b),
        rebalanced(b) == b,
        rb(boxed(b), h),
{
    assert(balance_stage3(b) == b);
}

proof fn lemma_moved_red_left<K, V>(h: Node<K, V>, ht: nat)
    requires
        h.color == Color::Red,
        rb(boxed(h), ht),
        h.left.is_some(),
        !red(h.left),
        !red(h.left.unwrap().left),
    ensures
        ht >= 1,
        h.right.is_some(),
        !red(h.right),
        ({
            let g = moved_red_left(h);
            if red(h.right.unwrap().left) {
                &&& g.color == Color::Red
                &&& !red(g.left)
                &&& !red(g.right)
                &&& rb(g.left, ht)
                &&& rb(g.right, ht)
                &&& red(g.left.unwrap().left)
            } else {
                &&& g.color == Color::Black
                &&& red(g.left)
                &&& rb(g.left, (ht - 1) as nat)
                &&& rb(g.right, (ht - 1) as nat)
            }
        }),
{
    let l = *h.left.unwrap();
    assert(rb(h.left, ht));
    assert(ht >= 1);
    assert(rb(h.right, ht));
    let r = *h.right.unwrap();
    let hc = (ht - 1) as nat;
    assert(rb(l.left, hc) && rb(l.right, hc));
    assert(rb(r.left, hc) && rb(r.right, hc));
    let f = flipped(h);
    if red(r.left) {
        let rl = *r.left.unwrap();
        assert(rb(rl.left, hc) && rb(rl.right, hc));
        let fr = *f.right.unwrap();
        assert(red(fr.left));
        let rr = rotated_right(fr);
        let n = Node { right: boxed(rr), ..f };
        let x = rotated_left(n);
        let g = flipped(x);
        assert(moved_red_left(h) == g);
        assert(rb(x.right, hc));
        assert(rb(g.right, ht));
        let gl = *g.left.unwrap();
        assert(gl.left == f.left);
        assert(rb(gl.left, hc));
        assert(rb(g.left, ht));
    } else {
        assert(moved_red_left(h) == f);
        assert(rb(f.left, hc));
        assert(rb(f.right, hc));
    }
}

pub open spec fn in_range<K: KeyOrder>(k: K, lo: K, hi: K) -> bool {
    lo.le(k) && k.le(hi)
}

/// The keys of a subtree in left-to-right order.
pub open spec fn inorder<K, V>(t: Link<K, V>) -> Seq<K>
    decreases t,
{
    match t {
        None => Seq::empty(),
        Some(node) => inorder(node.left) + seq![node.key] + inorder(node.right),
    }
}

/// The keys of a subtree in left-to-right order, restricted to `lo ..= hi`.
pub open spec fn inorder_between<K: KeyOrder, V>(t: Link<K, V>, lo: K, hi: K) -> Seq<K>
    decreases t,
{
    match t {
        None => Seq::empty(),
        Some(node) => inorder_between(node.left, lo, hi) + if in_range(node.key, lo, hi) {
            seq![node.key]
        } else {
            Seq::empty()
        } + inorder_between(node.right, lo, hi),
    }
}

/// The keys that a sequence of references points at.
pub open spec fn deref_all<K>(s: Seq<&K>) -> Seq<K> {
    s.map_values(|k: &K| *k)
}

/// Every key strictly below each later one.
pub open spec fn strictly_ascending<K: KeyOrder>(s: Seq<K>) -> bool {
    forall|i: int, j: int| 0 <= i < j < s.len() ==> lt(#[trigger] s[i], #[trigger] s[j])
}

proof fn lemma_between_none<K: KeyOrder, V>(t: Link<K, V>, lo: K, hi: K)
    requires
        forall|k: K| #[trigger] link_map(t).contains_key(k) ==> !in_range(k, lo, hi),
    ensures
        inorder_between(t, lo, hi) == Seq::<K>::empty(),
    decreases t,
{
    if let Some(node) = t {
        assert forall|k: K| #[trigger] link_map(node.left).contains_key(k) implies !in_range(k, lo, hi) by {
            assert(link_map(t).contains_key(k));
        }
        assert forall|k: K| #[trigger] link_map(node.right).contains_key(k) implies !in_range(k, lo, hi) by {
            assert(link_map(t).contains_key(k));
        }
        lemma_between_none(node.left, lo, hi);
        lemma_between_none(node.right, lo, hi);
        assert(link_map(t).contains_key(node.key));
        assert(inorder_between(t, lo, hi) =~= Seq::<K>::empty());
    }
}

proof fn lemma_between_all<K: KeyOrder, V>(t: Link<K, V>, lo: K, hi: K)
    requires
        forall|k: K| #[trigger] link_map(t).contains_key(k) ==> in_range(k, lo, hi),
    ensures
        inorder_between(t, lo, hi) == inorder(t),
    decreases t,
{
    if let Some(node) = t {
        assert forall|k: K| #[trigger] link_map(node.left).contains_key(k) implies in_range(k, lo, hi) by {
            assert(link_map(t).contains_key(k));
        }
        assert forall|k: K| #[trigger] link_map(node.right).contains_key(k) implies in_range(k, lo, hi) by {
            assert(link_map(t).contains_key(k));
        }
        lemma_between_all(node.left, lo, hi);
        lemma_between_all(node.right, lo, hi);
        assert(link_map(t).contains_key(node.key));
    }
}

/// The in-order keys of a search tree ascend strictly and are exactly its keys.
proof fn lemma_inorder<K: KeyOrder, V>(t: Link<K, V>)
    requires
        bst(t),
    ensures
        strictly_ascending(inorder(t)),
        forall|k: K| inorder(t).contains(k) <==> #[trigger] link_map(t).contains_key(k),
    decreases t,
{
    if let Some(node) = t {
        lemma_inorder(node.left);
        lemma_inorder(node.right);
        let l = inorder(node.left);
        let r = inorder(node.right);
        let s = inorder(t);
        assert(s == l + seq![node.key] + r);
        assert forall|k: K| s.contains(k) <==> #[trigger] link_map(t).contains_key(k) by {
            if s.contains(k) {
                let i = choose|i: int| 0 <= i < s.len() && s[i] == k;
                if i < l.len() {
                    assert(l[i] == k);
                    assert(l.contains(k));
                    assert(link_map(node.left).contains_key(k));
                } else if i > l.len() {
                    assert(r[i - l.len() - 1] == k);
                    assert(r.contains(k));
                    assert(link_map(node.right).contains_key(k));
                }
            }
            if link_map(t).contains_key(k) {
                if k == node.key {
                    assert(s[l.len() as int] == k);
                } else if link_map(node.left).contains_key(k) {
                    let i = choose|i: int| 0 <= i < l.len() && l[i] == k;
                    assert(s[i] == k);
                } else {
                    assert(link_map(node.right).contains_key(k));
                    let i = choose|i: int| 0 <= i < r.len() && r[i] == k;
                    assert(s[l.len() + 1 + i] == k);
                }
            }
        }
        assert forall|i: int, j: int| 0 <= i < j < s.len() implies lt(#[trigger] s[i], #[trigger] s[j]) by {
            let a = s[i];
            let b = s[j];
            let nl = l.len() as int;
            if i < nl {
                assert(l[i] == a && l.contains(a));
                assert(link_map(node.left).contains_key(a));
                assert(lt(a, node.key));
            }
            if j > nl {
                assert(r[j - nl - 1] == b && r.contains(b));
                assert(link_map(node.right).contains_key(b));
                assert(lt(node.key, b));
            }
            if i < nl && j < nl {
                assert(l[j] == b);
            } else if i < nl && j > nl {
                lemma_lt_transitive(a, node.key, b);
            } else if i > nl && j > nl {
                assert(r[i - nl - 1] == a);
            }
        }
    }
}

/// No red right link anywhere, and no red node with a red left child.
pub open spec fn left_leaning<K, V>(t: Link<K, V>) -> bool
    decreases t,
{
    match t {
        None => true,
        Some(node) => {
            &&& !red(node.right)
            &&& (node.color == Color::Red ==> !red(node.left))
            &&& left_leaning(node.left)
            &&& left_leaning(node.right)
        },
    }
}

/// Every path from the root of `t` down to an absent child meets exactly
/// `k` black nodes.
pub open spec fn black_paths<K, V>(t: Link<K, V>, k: int) -> bool
    decreases t,
{
    match t {
        None => k == 0,
        Some(node) => {
            let below = if node.color == Color::Black {
                k - 1
            } else {
                k
            };
            black_paths(node.left, below) && black_paths(node.right, below)
        },
    }
}

proof fn lemma_rb_shape<K, V>(t: Link<K, V>, h: nat)
    requires
        rb(t, h),
    ensures
        left_leaning(t),
        black_paths(t, h as int),
    decreases t,
{
    if let Some(node) = t {
        if node.color == Color::Black {
            lemma_rb_shape(node.left, (h - 1) as nat);
            lemma_rb_shape(node.right, (h - 1) as nat);
        } else {
            lemma_rb_shape(node.left, h);
            lemma_rb_shape(node.right, h);
        }
    }
}

/// `k` lies strictly between the bounds that are present.
pub open spec fn within<K: KeyOrder>(k: K, lo: Option<K>, hi: Option<K>) -> bool {
    &&& (match lo {
        Some(l) => lt(l, k),
        None => true,
    })
    &&& (match hi {
        Some(h) => lt(k, h),
        None => true,
    })
}

/// Search order with every key strictly between `lo` and `hi`.
pub open spec fn bst_between<K: KeyOrder, V>(t: Link<K, V>, lo: Option<K>, hi: Option<K>) -> bool
    decreases t,
{
    match t {
        None => true,
        Some(node) => within(node.key, lo, hi) && bst_between(node.left, lo, Some(node.key))
            && bst_between(node.right, Some(node.key), hi),
    }
}

pub open spec fn opt_key<K>(o: Option<&K>) -> Option<K> {
    match o {
        Some(k) => Some(*k),
        None => None,
    }
}

proof fn lemma_bst_between<K: KeyOrder, V>(t: Link<K, V>, lo: Option<K>, hi: Option<K>)
    ensures
        bst_between(t, lo, hi) <==> bst(t) && forall|k: K| #[trigger]
            link_map(t).contains_key(k) ==> within(k, lo, hi),
    decreases t,
{
    if let Some(node) = t {
        lemma_bst_between(node.left, lo, Some(node.key));
        lemma_bst_between(node.right, Some(node.key), hi);
        let m = link_map(t);
        let ml = link_map(node.left);
        let mr = link_map(node.right);
        assert(m == ml.union_prefer_right(mr).insert(node.key, node.value));
        if bst_between(t, lo, hi) {
            assert forall|k: K| #[trigger] m.contains_key(k) implies within(k, lo, hi) by {
                if ml.contains_key(k) {
                    if let Some(h) = hi {
                        lemma_lt_transitive(k, node.key, h);
                    }
                } else if mr.contains_key(k) {
                    if let Some(l) = lo {
                        lemma_lt_transitive(l, node.key, k);
                    }
                }
            }
        }
        if bst(t) && forall|k: K| #[trigger] m.contains_key(k) ==> within(k, lo, hi) {
            assert(m.contains_key(node.key));
            assert forall|k: K| #[trigger] ml.contains_key(k) implies within(k, lo, Some(node.key)) by {
                assert(m.contains_key(k));
            }
            assert forall|k: K| #[trigger] mr.contains_key(k) implies within(k, Some(node.key), hi) by {
                assert(m.contains_key(k));
            }
        }
    }
}

/// No red right link in the subtree and, at its root only, no red node with
/// a red left child.
pub open spec fn two_three<K, V>(t: Link<K, V>, is_root: bool) -> bool
    decreases t,
{
    match t {
        None => true,
        Some(node) => {
            &&& !red(node.right)
            &&& !(is_root && node.color == Color::Red && red(node.left))
            &&& two_three(node.left, false)
            &&& two_three(node.right, false)
        },
    }
}

proof fn lemma_left_leaning_two_three<K, V>(t: Link<K, V>, is_root: bool)
    requires
        left_leaning(t),
    ensures
        two_three(t, is_root),
    decreases t,
{
    if let Some(node) = t {
        lemma_left_leaning_two_three(node.left, false);
        lemma_left_leaning_two_three(node.right, false);
    }
}

fn is_red<K, V>(maybe_node: Option<&Box<Node<K, V>>>) -> (r: bool)
    ensures
        r == (match maybe_node {
            None => false,
            Some(node) => node.color == Color::Red,
        }),
{
    match maybe_node {
        None => false,
        Some(node) => node.color == Color::Red,
    }
}

fn size<K, V>(maybe_node: Option<&Box<Node<K, V>>>) -> (r: i32)
    ensures
        r == (match maybe_node {
            None => 0,
            Some(node) => node.n,
        }),
{
    match maybe_node {
        None => 0,
        Some(node) => node.n,
    }
}

/// An ordered map kept as a left-leaning red-black binary search tree.
pub struct RedBlackTree<K, V> {
    root: Link<K, V>,
}

impl<K: KeyOrder, V> View for RedBlackTree<K, V> {
    type V = Map<K, V>;

    closed spec fn view(&self) -> Map<K, V> {
        link_map(self.root)
    }
}

impl<K: KeyOrder, V> RedBlackTree<K, V> {
    /// The tree's invariant: search order, consistent sizes, a black root
    /// and left-leaning red-black balance.
    pub closed spec fn wf(&self) -> bool {
        &&& bst(self.root)
        &&& sized(self.root)
        &&& !red(self.root)
        &&& rb(self.root, black_height(self.root))
        &&& count(self.root) <= i32::MAX
    }

    /// The smallest key; meaningful only when the map is not empty.
    pub closed spec fn min_key(&self) -> K {
        leftmost(self.root)
    }

    /// The largest key; meaningful only when the map is not empty.
    pub closed spec fn max_key(&self) -> K {
        rightmost(self.root)
    }

    /// Search order: each key of a left subtree is below its node's key,
    /// each key of a right subtree above it.
    pub closed spec fn spec_is_bst(&self) -> bool {
        bst(self.root)
    }

    /// Each node's cached size is one more than its children's sizes together.
    pub closed spec fn spec_is_size_consistent(&self) -> bool {
        sized(self.root)
    }

    /// No red right link, no red-red chain, and a black root.
    pub closed spec fn spec_is_2_3(&self) -> bool {
        left_leaning(self.root) && !red(self.root)
    }

    /// No node has a red right link, and a red root has no red left child.
    pub closed spec fn spec_root_2_3(&self) -> bool {
        two_three(self.root, true)
    }

    /// Every path from the root to an absent child meets the same number of
    /// black nodes.
    pub closed spec fn spec_is_balanced(&self) -> bool {
        black_paths(self.root, black_height(self.root) as int)
    }

    /// All keys in ascending order.
    pub closed spec fn key_seq(&self) -> Seq<K> {
        inorder(self.root)
    }

    /// The keys `k` with `lo <= k <= hi`, in ascending order.
    pub closed spec fn key_seq_between(&self, lo: K, hi: K) -> Seq<K> {
        inorder_between(self.root, lo, hi)
    }

    pub fn new() -> (t: RedBlackTree<K, V>)
        ensures
            t.wf(),
            t@ == Map::<K, V>::empty(),
    {
        RedBlackTree { root: None }
    }

    pub fn size(&self) -> (r: i32)
        requires
            self.wf(),
        ensures
            r as int == self@.len(),
    {
        proof {
            lemma_count_is_len(self.root);
        }
        size(self.root.as_ref())
    }

    pub fn is_empty(&self) -> (r: bool)
        requires
            self.wf(),
        ensures
            r == (self@.len() == 0),
    {
        proof {
            lemma_count_is_len(self.root);
        }
        self.root.is_none()
    }

    pub fn get(&self, key: &K) -> (r: Option<&V>)
        requires
            self.wf(),
        ensures
            match r {
                None => !self@.contains_key(*key),
                Some(v) => self@.contains_key(*key) && *v == self@[*key],
            },
    {
        RedBlackTree::get_from_node(&self.root, key)
    }

    fn get_from_node<'t>(node: &'t Link<K, V>, key: &K) -> (r: Option<&'t V>)
        requires
            bst(*node),
        ensures
            match r {
                None => !link_map(*node).contains_key(*key),
                Some(v) => link_map(*node).contains_key(*key) && *v == link_map(*node)[*key],
            },
    {
        let mut cur: &'t Link<K, V> = node;
        loop
            invariant
                bst(*cur),
                link_map(*node).contains_key(*key) == link_map(*cur).contains_key(*key),
                link_map(*cur).contains_key(*key) ==> link_map(*node)[*key] == link_map(
                    *cur,
                )[*key],
            decreases count(*cur),
        {
            match cur {
                None => {
                    return None;
                },
                Some(curr_node) => {
                    match key.compare(&curr_node.key) {
                        Ordering::Less => {
                            proof {
                                if link_map(curr_node.right).contains_key(*key) {
                                    lemma_lt_asymmetric(*key, curr_node.key);
                                }
                            }
                            cur = &curr_node.left;
                        },
                        Ordering::Equal => {
                            return Some(&curr_node.value);
                        },
                        Ordering::Greater => {
                            proof {
                                if link_map(curr_node.left).contains_key(*key) {
                                    lemma_lt_asymmetric(*key, curr_node.key);
                                }
                            }
                            cur = &curr_node.right;
                        },
                    }
                },
            }
        }
    }

    pub fn put(&mut self, key: K, val: V)
        requires
            old(self).wf(),
            old(self)@.len() < i32::MAX,
        ensures
            final(self).wf(),
            final(self)@ == old(self)@.insert(key, val),
            final(self)@[key] == val,
            forall|j: K| j != key ==> (#[trigger] final(self)@.contains_key(j)) == old(self)@.contains_key(j)
                && (old(self)@.contains_key(j) ==> final(self)@[j] == old(self)@[j]),
            final(self)@.len() == old(self)@.len() + if old(self)@.contains_key(key) {
                0int
            } else {
                1int
            },
    {
        proof {
            lemma_count_is_len(self.root);
        }
        let ghost h = black_height(self.root);
        let mut new_root = RedBlackTree::put_in_node(self.root.take(), key, val);
        new_root.color = Color::Black;
        self.root = Some(new_root);
        proof {
            if rb(self.root, h) {
                lemma_rb_height(self.root, h);
            } else {
                lemma_rb_height(self.root, h + 1);
            }
        }
    }

    #[verifier::rlimit(60)]
    fn put_in_node(maybe_node: Link<K, V>, key: K, val: V) -> (r: Box<Node<K, V>>)
        requires
            bst(maybe_node),
            sized(maybe_node),
            rb(maybe_node, black_height(maybe_node)),
            count(maybe_node) < i32::MAX,
        ensures
            bst(Some(r)),
            sized(Some(r)),
            link_map(Some(r)) == link_map(maybe_node).insert(key, val),
            count(Some(r)) == count(maybe_node) + if link_map(maybe_node).contains_key(key) {
                0nat
            } else {
                1nat
            },
            !red(maybe_node) ==> rb(Some(r), black_height(maybe_node)),
            red(maybe_node) ==> red_leaning(*r, black_height(maybe_node)),
        decreases maybe_node,
    {
        match maybe_node {
            None => {
                let leaf = Node {
                    key: key,
                    value: val,
                    left: None,
                    right: None,
                    color: Color::Red,
                    n: 1,
                };
                proof {
                    assert(count(boxed(leaf)) == 1);
                    assert(rb(boxed(leaf), 0));
                    assert(link_map(boxed(leaf)) =~= link_map(maybe_node).insert(key, val));
                }
                Box::new(leaf)
            },
            Some(boxed_node) => {
                let mut node = *boxed_node;
                let ghost h = black_height(maybe_node);
                let ghost hc = child_height(node, h);
                let ghost n0 = node;
                proof {
                    lemma_rb_height(node.left, hc);
                    lemma_rb_height(node.right, hc);
                }
                match key.compare(&node.key) {
                    Ordering::Less => {
                        let l = node.left.take();
                        node.left = Some(RedBlackTree::put_in_node(l, key, val));
                        proof {
                            if link_map(n0.right).contains_key(key) {
                                lemma_lt_asymmetric(key, n0.key);
                            }
                            assert forall|k: K| #[trigger]
                                link_map(node.left).contains_key(k) implies lt(k, node.key) by {
                                if k != key {
                                    assert(link_map(n0.left).contains_key(k));
                                }
                            }
                            assert(link_map(boxed(node)) =~= link_map(maybe_node).insert(key, val));
                        }
                    },
                    Ordering::Equal => {
                        node.value = val;
                        proof {
                            assert(!link_map(n0.left).contains_key(key));
                            assert(!link_map(n0.right).contains_key(key));
                            assert(link_map(boxed(node)) =~= link_map(maybe_node).insert(key, val));
                        }
                    },
                    Ordering::Greater => {
                        let r = node.right.take();
                        node.right = Some(RedBlackTree::put_in_node(r, key, val));
                        proof {
                            if link_map(n0.left).contains_key(key) {
                                lemma_lt_asymmetric(key, n0.key);
                            }
                            assert forall|k: K| #[trigger]
                                link_map(node.right).contains_key(k) implies lt(node.key, k) by {
                                if k != key {
                                    assert(link_map(n0.right).contains_key(k));
                                }
                            }
                            assert(link_map(boxed(node)) =~= link_map(maybe_node).insert(key, val));
                        }
                    },
                }
                let ghost n1 = node;
                proof {
                    assert(count(boxed(n1)) == count(n1.left) + count(n1.right) + 1);
                    assert(count(maybe_node) == count(n0.left) + count(n0.right) + 1);
                    assert(count(boxed(n1)) <= i32::MAX);
                    assert(sized(n1.left) && sized(n1.right));
                }
                if is_red(node.right.as_ref()) && !is_red(node.left.as_ref()) {
                    node = RedBlackTree::rotate_left(node);
                }
                let ghost n2 = node;
                assert(sized(n2.left) && sized(n2.right));
                if is_red(node.left.as_ref()) && is_red(node.left.as_ref().unwrap().left.as_ref()) {
                    node = RedBlackTree::rotate_right(node);
                }
                let ghost n3 = node;
                assert(sized(n3.left) && sized(n3.right));
                if is_red(node.left.as_ref()) && is_red(node.right.as_ref()) {
                    RedBlackTree::flip_colors(&mut node);
                    proof {
                        lemma_recolored(n3.left);
                        lemma_recolored(n3.right);
                    }
                }
                proof {
                    assert(sized(node.left) && sized(node.right));
                    assert(link_n(node.left) == count(node.left));
                    assert(node == fixed_up(n1));
                    assert(count(boxed(node)) == count(node.left) + count(node.right) + 1);
                    assert(count(boxed(node)) == count(boxed(n1)));
                    if n0.color == Color::Black {
                        lemma_fixed_up_black(n1, h);
                    } else {
                        lemma_fixed_up_red(n1, h);
                    }
                }
                node.n = size(node.left.as_ref()) + size(node.right.as_ref()) + 1;
                Box::new(node)
            },
        }
    }

    pub fn delete_min(&mut self)
        requires
            old(self).wf(),
            old(self)@.len() > 0,
        ensures
            final(self).wf(),
            is_least(old(self)@, old(self).min_key()),
            final(self)@ == old(self)@.remove(old(self).min_key()),
            !final(self)@.contains_key(old(self).min_key()),
            forall|j: K| j != old(self).min_key() ==> (#[trigger] final(self)@.contains_key(j)) == old(self)@.contains_key(j)
                && (old(self)@.contains_key(j) ==> final(self)@[j] == old(self)@[j]),
            final(self)@.len() + 1 == old(self)@.len(),
    {
        proof {
            lemma_count_is_len(self.root);
            lemma_leftmost_least(self.root);
        }
        let ghost h = black_height(self.root);
        let ghost r0 = self.root;
        let mut taken_root = self.root.take().unwrap();
        if !is_red(taken_root.left.as_ref()) && !is_red(taken_root.right.as_ref()) {
            taken_root.color = Color::Red;
            proof {
                lemma_rb_height(taken_root.left, (h - 1) as nat);
                assert(rb(Some(taken_root), (h - 1) as nat));
                lemma_rb_height(Some(taken_root), (h - 1) as nat);
            }
        }
        proof {
            assert(leftmost(Some(taken_root)) == leftmost(r0));
            assert(link_map(Some(taken_root)) == link_map(r0));
        }
        let ghost hd = black_height(Some(taken_root));
        self.root = RedBlackTree::delete_min_node(taken_root);
        let ghost pre = self.root;
        match self.root.take() {
            None => {},
            Some(mut root) => {
                root.color = Color::Black;
                self.root = Some(root);
            },
        }
        proof {
            if let Some(p) = pre {
                if p.color == Color::Red {
                    assert(rb(p.left, hd) && rb(p.right, hd));
                    assert(rb(self.root, hd + 1));
                    lemma_rb_height(self.root, hd + 1);
                } else {
                    assert(self.root == pre);
                    lemma_rb_height(self.root, hd);
                }
            }
        }
    }

    fn delete_min_node(h: Box<Node<K, V>>) -> (r: Link<K, V>)
        requires
            bst(Some(h)),
            sized(Some(h)),
            rb(Some(h), black_height(Some(h))),
            h.color == Color::Red || red(h.left),
            count(Some(h)) <= i32::MAX,
        ensures
            bst(r),
            sized(r),
            link_map(r) == link_map(Some(h)).remove(leftmost(Some(h))),
            count(r) + 1 == count(Some(h)),
            rb(r, black_height(Some(h))),
            h.color == Color::Black ==> r.is_some() && r.unwrap().color == Color::Black,
        decreases count(Some(h)),
    {
        if h.left.is_none() {
            proof {
                let ht = black_height(Some(h));
                assert(h.color == Color::Red);
                assert(black_height(h.left) == 0);
                assert(ht == 0);
                assert(rb(h.right, ht));
                if h.right.is_some() {
                    assert(rb(h.right, 0));
                }
                assert(link_map(h.left) =~= Map::empty());
                assert(link_map(None::<Box<Node<K, V>>>) =~= link_map(Some(h)).remove(h.key));
            }
            None
        } else {
            let ghost ht = black_height(Some(h));
            let ghost h0 = *h;
            let mut h = *h;
            if !is_red(h.left.as_ref()) && !is_red(h.left.as_ref().unwrap().left.as_ref()) {
                proof {
                    lemma_moved_red_left(h, ht);
                }
                h = RedBlackTree::move_red_left(h);
            }
            let ghost g = h;
            let ghost hl = if g.color == Color::Black {
                (ht - 1) as nat
            } else {
                ht
            };
            proof {
                assert(rb(g.left, hl));
                lemma_rb_height(g.left, hl);
                assert(count(boxed(g)) == count(g.left) + count(g.right) + 1);
                assert(sized(g.left) && sized(g.right));
                assert(leftmost(boxed(g)) == leftmost(g.left));
            }
            let l = h.left.take().unwrap();
            h.left = RedBlackTree::delete_min_node(l);
            let ghost b = h;
            proof {
                let m = leftmost(g.left);
                lemma_leftmost_least(g.left);
                assert(lt(m, g.key));
                if link_map(g.right).contains_key(m) {
                    lemma_lt_asymmetric(m, g.key);
                }
                assert(link_map(boxed(b)) =~= link_map(boxed(g)).remove(m));
                assert forall|k: K| #[trigger] link_map(b.left).contains_key(k) implies lt(k, b.key) by {
                    assert(link_map(g.left).contains_key(k));
                }
                assert(bst(boxed(b)));
                if g.color == Color::Black {
                    lemma_rebalanced_black(b, ht);
                } else {
                    lemma_rebalanced_red(b, ht);
                }
                assert(count(boxed(b)) == count(b.left) + count(b.right) + 1);
            }
            let r = RedBlackTree::balance(h);
            proof {
                assert(rb(boxed(r), ht) == rb(boxed(rebalanced(b)), ht));
            }
            Some(Box::new(r))
        }
    }

    /// Assuming that h is red and both h.left and h.left.left are black, make h.left or one of its children red.
    fn move_red_left(h: Node<K, V>) -> (r: Node<K, V>)
        requires
            h.color == Color::Red,
            h.left.is_some(),
            !red(h.left),
            !red(h.left.unwrap().left),
            h.right.is_some(),
            !red(h.right),
            sized(boxed(h)),
            count(boxed(h)) <= i32::MAX,
        ensures
            r == moved_red_left(h),
            sized(boxed(r)),
            count(boxed(r)) == count(boxed(h)),
            leftmost(boxed(r)) == leftmost(boxed(h)),
            bst(boxed(h)) ==> bst(boxed(r)) && link_map(boxed(r)) == link_map(boxed(h)),
    {
        let mut h = h;
        let ghost h0 = h;
        RedBlackTree::flip_colors(&mut h);
        proof {
            lemma_recolored(h0.left);
            lemma_recolored(h0.right);
            assert(count(boxed(h)) == count(boxed(h0)));
            assert(sized(boxed(h)));
            assert(leftmost(boxed(h)) == leftmost(boxed(h0)));
            assert(link_map(boxed(h)) == link_map(boxed(h0)));
            assert(bst(boxed(h0)) ==> bst(boxed(h)));
        }
        if is_red(h.right.as_ref().unwrap().left.as_ref()) {
            let ghost f = h;
            let hr = *h.right.take().unwrap();
            proof {
                assert(count(boxed(f)) == count(f.left) + count(boxed(hr)) + 1);
                assert(sized(boxed(hr)));
            }
            h.right = Some(Box::new(RedBlackTree::rotate_right(hr)));
            let ghost n = h;
            proof {
                assert(count(boxed(n)) == count(boxed(f)));
                assert(sized(boxed(n)));
                assert(leftmost(boxed(n)) == leftmost(boxed(f)));
                assert(bst(boxed(f)) ==> bst(boxed(n)) && link_map(boxed(n)) == link_map(boxed(f)));
            }
            h = RedBlackTree::rotate_left(h);
            let ghost x = h;
            proof {
                assert(leftmost(x.left) == leftmost(boxed(n)));
            }
            RedBlackTree::flip_colors(&mut h);
            proof {
                lemma_recolored(x.left);
                lemma_recolored(x.right);
                assert(count(boxed(h)) == count(boxed(x)));
                assert(sized(boxed(h)));
                assert(leftmost(boxed(h)) == leftmost(boxed(x)));
                assert(bst(boxed(x)) ==> bst(boxed(h)) && link_map(boxed(h)) == link_map(boxed(x)));
            }
        }
        h
    }

    /// Restore red-black tree invariant
    fn balance(h: Node<K, V>) -> (r: Node<K, V>)
        requires
            sized(h.left),
            sized(h.right),
            count(boxed(h)) <= i32::MAX,
            flip_safe(h),
        ensures
            same_but_size(r, rebalanced(h)),
            sized(boxed(r)),
            count(boxed(r)) == count(boxed(h)),
            bst(boxed(h)) ==> bst(boxed(r)) && link_map(boxed(r)) == link_map(boxed(h)),
    {
        let mut h = h;
        let ghost h0 = h;
        if is_red(h.right.as_ref()) {
            h = RedBlackTree::rotate_left(h);
        }
        if is_red(h.left.as_ref()) && is_red(h.left.as_ref().unwrap().left.as_ref()) {
            h = RedBlackTree::rotate_right(h);
        }
        let ghost h3 = h;
        assert(h3 == balance_stage3(h0));
        if is_red(h.left.as_ref()) && is_red(h.right.as_ref()) {
            RedBlackTree::flip_colors(&mut h);
            proof {
                lemma_recolored(h3.left);
                lemma_recolored(h3.right);
            }
        }
        proof {
            assert(sized(h.left) && sized(h.right));
            assert(count(boxed(h)) == count(h.left) + count(h.right) + 1);
            assert(count(boxed(h)) == count(boxed(h3)));
        }
        h.n = size(h.left.as_ref()) + size(h.right.as_ref()) + 1;
        h
    }

    pub fn min(&self) -> (r: Option<&K>)
        requires
            self.wf(),
        ensures
            match r {
                None => self@.len() == 0,
                Some(k) => *k == self.min_key() && is_least(self@, *k),
            },
    {
        proof {
            lemma_count_is_len(self.root);
        }
        match &self.root {
            None => None,
            Some(root) => {
                proof {
                    lemma_leftmost_least(self.root);
                }
                Some(&RedBlackTree::min_node(root).key)
            },
        }
    }

    fn min_node(x: &Box<Node<K, V>>) -> (r: &Box<Node<K, V>>)
        ensures
            r.key == leftmost(Some(*x)),
        decreases x,
    {
        match &x.left {
            Some(left) => RedBlackTree::min_node(left),
            None => x,
        }
    }

    pub fn max(&self) -> (r: Option<&K>)
        requires
            self.wf(),
        ensures
            match r {
                None => self@.len() == 0,
                Some(k) => *k == self.max_key() && is_greatest(self@, *k),
            },
    {
        proof {
            lemma_count_is_len(self.root);
        }
        match &self.root {
            None => None,
            Some(root) => {
                proof {
                    lemma_rightmost_greatest(self.root);
                }
                Some(&RedBlackTree::max_node(root).key)
            },
        }
    }

    fn max_node(x: &Box<Node<K, V>>) -> (r: &Box<Node<K, V>>)
        ensures
            r.key == rightmost(Some(*x)),
        decreases x,
    {
        match &x.right {
            Some(right) => RedBlackTree::max_node(right),
            None => x,
        }
    }

    pub fn keys(&self) -> (r: Vec<&K>)
        requires
            self.wf(),
        ensures
            deref_all(r@) == self.key_seq(),
    {
        proof {
            lemma_count_is_len(self.root);
        }
        if self.is_empty() {
            proof {
                assert(self.root.is_none());
            }
            Vec::new()
        } else {
            let lo = self.min().unwrap();
            let hi = self.max().unwrap();
            proof {
                assert forall|k: K| #[trigger] link_map(self.root).contains_key(k) implies in_range(k, *lo, *hi) by {
                }
                lemma_between_all(self.root, *lo, *hi);
            }
            self.keys_between(lo, hi)
        }
    }

    pub fn keys_between(&self, lo: &K, hi: &K) -> (r: Vec<&K>)
        requires
            self.wf(),
        ensures
            deref_all(r@) == self.key_seq_between(*lo, *hi),
            lt(*hi, *lo) ==> r@.len() == 0,
    {
        let mut keys: Vec<&K> = Vec::new();
        RedBlackTree::keys_between_node(&self.root, &mut keys, lo, hi);
        proof {
            assert(deref_all(Seq::<&K>::empty()) =~= Seq::<K>::empty());
            if lt(*hi, *lo) {
                assert forall|k: K| #[trigger] link_map(self.root).contains_key(k) implies !in_range(k, *lo, *hi) by {
                    if in_range(k, *lo, *hi) {
                        K::lemma_transitive(*lo, k, *hi);
                        K::lemma_antisymmetric(*lo, *hi);
                    }
                }
                lemma_between_none(self.root, *lo, *hi);
            }
        }
        keys
    }

    fn keys_between_node<'t>(x: &'t Link<K, V>, keys: &mut Vec<&'t K>, lo: &K, hi: &K)
        requires
            bst(*x),
        ensures
            deref_all(final(keys)@) == deref_all(old(keys)@) + inorder_between(*x, *lo, *hi),
        decreases x,
    {
        match x {
            None => {
                assert(deref_all(old(keys)@) + inorder_between(*x, *lo, *hi) =~= deref_all(old(keys)@));
            },
            Some(node) => {
                let ghost k0 = keys@;
                let cmplo = lo.compare(&node.key);
                let cmphi = hi.compare(&node.key);
                let go_left = match cmplo {
                    Ordering::Less => true,
                    _ => false,
                };
                let go_right = match cmphi {
                    Ordering::Greater => true,
                    _ => false,
                };
                let here = match (cmplo, cmphi) {
                    (Ordering::Greater, _) => false,
                    (_, Ordering::Less) => false,
                    _ => true,
                };
                if go_left {
                    RedBlackTree::keys_between_node(&node.left, keys, lo, hi);
                } else {
                    proof {
                        K::lemma_reflexive(*lo);
                        assert(node.key.le(*lo));
                        assert forall|k: K| #[trigger] link_map(node.left).contains_key(k) implies !in_range(k, *lo, *hi) by {
                            assert(lt(k, node.key));
                            if lo.le(k) {
                                K::lemma_transitive(node.key, *lo, k);
                                K::lemma_antisymmetric(node.key, k);
                            }
                        }
                        lemma_between_none(node.left, *lo, *hi);
                    }
                }
                let ghost k1 = keys@;
                if here {
                    keys.push(&node.key);
                    proof {
                        assert(deref_all(keys@) =~= deref_all(k1).push(node.key));
                    }
                }
                proof {
                    if here {
                        K::lemma_total(*lo, node.key);
                        K::lemma_total(*hi, node.key);
                    }
                    if in_range(node.key, *lo, *hi) {
                        assert(here);
                    }
                }
                let ghost k2 = keys@;
                if go_right {
                    RedBlackTree::keys_between_node(&node.right, keys, lo, hi);
                } else {
                    proof {
                        K::lemma_reflexive(*hi);
                        assert(hi.le(node.key));
                        assert forall|k: K| #[trigger] link_map(node.right).contains_key(k) implies !in_range(k, *lo, *hi) by {
                            assert(lt(node.key, k));
                            if k.le(*hi) {
                                K::lemma_transitive(k, *hi, node.key);
                                K::lemma_antisymmetric(node.key, k);
                            }
                        }
                        lemma_between_none(node.right, *lo, *hi);
                    }
                }
                proof {
                    assert(deref_all(keys@) =~= deref_all(k0) + inorder_between(*x, *lo, *hi));
                }
            },
        }
    }

    /// Checks the tree's invariants at run time: search order, cached sizes,
    /// no red right link or red-red chain at the root, and black balance.
    pub fn check_state(&self) -> (r: bool)
        requires
            self.wf(),
        ensures
            r == (self.spec_is_bst() && self.spec_is_size_consistent() && self.spec_root_2_3()
                && self.spec_is_balanced()),
            r,
    {
        proof {
            lemma_rb_shape(self.root, black_height(self.root));
            lemma_left_leaning_two_three(self.root, true);
        }
        self.is_bst() && self.is_size_consistent() && self.is_rank_consistent() && self.is_2_3()
            && self.is_balanced()
    }

    fn is_bst(&self) -> (r: bool)
        ensures
            r == bst(self.root),
    {
        proof {
            lemma_bst_between(self.root, None, None);
        }
        RedBlackTree::is_bst_node(&self.root, None, None)
    }

    fn is_bst_node(x: &Link<K, V>, min: Option<&K>, max: Option<&K>) -> (r: bool)
        ensures
            r == bst_between(*x, opt_key(min), opt_key(max)),
        decreases x,
    {
        match x {
            None => true,
            Some(x_ref) => {
                if let Some(lo) = min {
                    match x_ref.key.compare(lo) {
                        Ordering::Greater => {},
                        _ => {
                            return false;
                        },
                    }
                }
                if let Some(hi) = max {
                    match x_ref.key.compare(hi) {
                        Ordering::Less => {},
                        _ => {
                            return false;
                        },
                    }
                }
                RedBlackTree::is_bst_node(&x_ref.left, min, Some(&x_ref.key))
                    && RedBlackTree::is_bst_node(&x_ref.right, Some(&x_ref.key), max)
            },
        }
    }

    fn is_size_consistent(&self) -> (r: bool)
        ensures
            r == sized(self.root),
    {
        RedBlackTree::is_size_consistent_node(&self.root)
    }

    fn is_size_consistent_node(x: &Link<K, V>) -> (r: bool)
        ensures
            r == sized(*x),
        decreases x,
    {
        match x {
            None => true,
            Some(x_ref) => {
                let expected = size(x_ref.left.as_ref()) as i64 + size(x_ref.right.as_ref()) as i64
                    + 1;
                if x_ref.n as i64 != expected {
                    proof {
                        if sized(x_ref.left) && sized(x_ref.right) {
                            assert(count(*x) == count(x_ref.left) + count(x_ref.right) + 1);
                        }
                    }
                    return false;
                }
                RedBlackTree::is_size_consistent_node(&x_ref.left)
                    && RedBlackTree::is_size_consistent_node(&x_ref.right)
            },
        }
    }

    /// Rank queries are not offered, so there is nothing to check.
    fn is_rank_consistent(&self) -> (r: bool)
        ensures
            r,
    {
        true
    }

    fn is_2_3(&self) -> (r: bool)
        ensures
            r == two_three(self.root, true),
    {
        RedBlackTree::is_2_3_node(&self.root, true)
    }

    fn is_2_3_node(x: &Link<K, V>, x_is_root: bool) -> (r: bool)
        ensures
            r == two_three(*x, x_is_root),
        decreases x,
    {
        match x {
            None => true,
            Some(x_ref) => {
                if is_red(x_ref.right.as_ref()) {
                    return false;
                }
                if x_is_root && x_ref.color == Color::Red && is_red(x_ref.left.as_ref()) {
                    return false;
                }
                RedBlackTree::is_2_3_node(&x_ref.left, false) && RedBlackTree::is_2_3_node(
                    &x_ref.right,
                    false,
                )
            },
        }
    }

    fn is_balanced(&self) -> (r: bool)
        requires
            self.wf(),
        ensures
            r == black_paths(self.root, black_height(self.root) as int),
    {
        proof {
            lemma_black_height_le_count(self.root);
        }
        let mut black: i64 = 0;
        let mut x = &self.root;
        while x.is_some()
            invariant
                black + black_height(*x) == black_height(self.root),
                black_height(self.root) <= i32::MAX,
                black >= 0,
            decreases count(*x),
        {
            if !is_red(x.as_ref()) {
                black = black + 1;
            }
            match x {
                Some(node) => {
                    x = &node.left;
                },
                None => {},
            }
        }
        proof {
            assert(black_height(*x) == 0);
        }
        RedBlackTree::is_balanced_node(&self.root, black)
    }

    fn is_balanced_node(x: &Link<K, V>, black: i64) -> (r: bool)
        requires
            count(*x) <= i32::MAX,
            black <= i32::MAX,
            black - count(*x) >= i32::MIN,
        ensures
            r == black_paths(*x, black as int),
        decreases x,
    {
        match x {
            None => black == 0,
            Some(x_ref) => {
                let mut black = black;
                if !is_red(x.as_ref()) {
                    black = black - 1;
                }
                RedBlackTree::is_balanced_node(&x_ref.left, black)
                    && RedBlackTree::is_balanced_node(&x_ref.right, black)
            },
        }
    }

    /// make a right-leaning link lean to the left
    fn rotate_left(h: Node<K, V>) -> (r: Node<K, V>)
        requires
            red(h.right),
            sized(h.left),
            sized(h.right),
            count(boxed(h)) <= i32::MAX,
        ensures
            r == rotated_left(h),
            sized(boxed(h)) ==> sized(boxed(r)),
            sized(r.left),
            sized(r.right),
            count(boxed(r)) == count(boxed(h)),
            bst(boxed(h)) ==> bst(boxed(r)) && link_map(boxed(r)) == link_map(boxed(h)),
    {
        let mut h = h;
        let ghost h0 = h;
        let mut x = *h.right.take().unwrap();
        proof {
            assert(count(boxed(h0)) == count(h0.left) + count(h0.right) + 1);
            assert(count(h0.right) == count(x.left) + count(x.right) + 1);
            assert(sized(x.left));
        }
        h.right = x.left.take();
        x.color = h.color;
        x.n = h.n;
        h.color = Color::Red;
        h.n = size(h.left.as_ref()) + size(h.right.as_ref()) + 1;
        x.left = Some(Box::new(h));
        proof {
            let xr = *h0.right.unwrap();
            assert(x == rotated_left(h0));
            let ml = link_map(h0.left);
            let mb = link_map(xr.left);
            let mc = link_map(xr.right);
            assert(link_map(h0.right) == mb.union_prefer_right(mc).insert(xr.key, xr.value));
            assert(link_map(x.left) == ml.union_prefer_right(mb).insert(h0.key, h0.value));
            assert(count(x.left) == count(h0.left) + count(xr.left) + 1);
            assert(count(h0.right) == count(xr.left) + count(xr.right) + 1);
            if bst(boxed(h0)) {
                assert(link_map(h0.right).contains_key(xr.key));
                assert(!mc.contains_key(h0.key)) by {
                    if mc.contains_key(h0.key) {
                        assert(link_map(h0.right).contains_key(h0.key));
                    }
                }
                assert(link_map(boxed(x)) =~= link_map(boxed(h0)));
                assert(bst(h0.right));
                assert forall|k: K| #[trigger] mb.contains_key(k) implies lt(h0.key, k) && lt(k, xr.key) by {
                    assert(link_map(h0.right).contains_key(k));
                }
                assert forall|k: K| #[trigger] link_map(x.left).contains_key(k) implies lt(k, x.key) by {
                    if k == h0.key {
                    } else if ml.contains_key(k) {
                        lemma_lt_transitive(k, h0.key, xr.key);
                    } else {
                        assert(mb.contains_key(k));
                    }
                }
                assert(bst(x.left));
                assert forall|k: K| #[trigger] mc.contains_key(k) implies lt(xr.key, k) by {
                }
                assert(bst(boxed(x)));
            }
        }
        proof {
            assert(sized(x.left));
            assert(sized(x.right));
            assert(count(boxed(h0)) == count(h0.left) + count(h0.right) + 1);
            if sized(boxed(h0)) {
                assert(count(boxed(x)) == count(x.left) + count(x.right) + 1);
                assert(x.n == h0.n);
                assert(sized(boxed(x)));
            }
        }
        x
    }

    /// make a left-leaning link lean to the right
    fn rotate_right(h: Node<K, V>) -> (r: Node<K, V>)
        requires
            red(h.left),
            sized(h.left),
            sized(h.right),
            count(boxed(h)) <= i32::MAX,
        ensures
            r == rotated_right(h),
            sized(boxed(h)) ==> sized(boxed(r)),
            sized(r.left),
            sized(r.right),
            count(boxed(r)) == count(boxed(h)),
            bst(boxed(h)) ==> bst(boxed(r)) && link_map(boxed(r)) == link_map(boxed(h)),
    {
        let mut h = h;
        let ghost h0 = h;
        let mut x = *h.left.take().unwrap();
        proof {
            assert(count(boxed(h0)) == count(h0.left) + count(h0.right) + 1);
            assert(count(h0.left) == count(x.left) + count(x.right) + 1);
            assert(sized(x.right));
        }
        h.left = x.right.take();
        x.color = h.color;
        x.n = h.n;
        h.color = Color::Red;
        h.n = size(h.left.as_ref()) + size(h.right.as_ref()) + 1;
        x.right = Some(Box::new(h));
        proof {
            let xl = *h0.left.unwrap();
            assert(x == rotated_right(h0));
            let ma = link_map(xl.left);
            let mb = link_map(xl.right);
            let mc = link_map(h0.right);
            assert(link_map(h0.left) == ma.union_prefer_right(mb).insert(xl.key, xl.value));
            assert(link_map(x.right) == mb.union_prefer_right(mc).insert(h0.key, h0.value));
            assert(count(x.right) == count(xl.right) + count(h0.right) + 1);
            assert(count(h0.left) == count(xl.left) + count(xl.right) + 1);
            if bst(boxed(h0)) {
                assert(link_map(h0.left).contains_key(xl.key));
                assert(!mc.contains_key(xl.key)) by {
                    if mc.contains_key(xl.key) {
                        lemma_lt_asymmetric(xl.key, h0.key);
                    }
                }
                assert(bst(h0.left));
                assert forall|k: K| #[trigger] mb.contains_key(k) implies lt(k, h0.key) && lt(xl.key, k) by {
                    assert(link_map(h0.left).contains_key(k));
                }
                assert forall|k: K| #[trigger] link_map(x.right).contains_key(k) implies lt(x.key, k) by {
                    if k == h0.key {
                    } else if mc.contains_key(k) {
                        lemma_lt_transitive(xl.key, h0.key, k);
                    } else {
                        assert(mb.contains_key(k));
                    }
                }
                assert(bst(x.right));
                assert(bst(boxed(x)));
                assert(link_map(boxed(x)) =~= link_map(boxed(h0)));
            }
        }
        proof {
            assert(sized(x.left));
            assert(sized(x.right));
            assert(count(boxed(h0)) == count(h0.left) + count(h0.right) + 1);
            if sized(boxed(h0)) {
                assert(count(boxed(x)) == count(x.left) + count(x.right) + 1);
                assert(x.n == h0.n);
                assert(sized(boxed(x)));
            }
        }
        x
    }

    /// flip the colors of a node and its two children
    fn flip_colors(h: &mut Node<K, V>)
        requires
            old(h).left.is_some(),
            old(h).right.is_some(),
            red(old(h).left) == red(old(h).right),
            old(h).color != old(h).left.unwrap().color,
        ensures
            *final(h) == flipped(*old(h)),
    {
        h.color.invert();
        let mut l = h.left.take().unwrap();
        l.color.invert();
        h.left = Some(l);
        let mut r = h.right.take().unwrap();
        r.color.invert();
        h.right = Some(r);
    }

    pub fn contains(&self, key: &K) -> (r: bool)
        requires
            self.wf(),
        ensures
            r == self@.contains_key(*key),
    {
        self.get(key).is_some()
    }
}

/// A well-formed tree is a search tree with consistent sizes, left-leaning
/// red links, a black root and perfect black balance; its in-order keys
/// ascend strictly and are exactly the keys of the map.
pub proof fn lemma_tree_invariants<K: KeyOrder, V>(t: &RedBlackTree<K, V>)
    requires
        t.wf(),
    ensures
        t.spec_is_bst(),
        t.spec_is_size_consistent(),
        t.spec_is_2_3(),
        t.spec_root_2_3(),
        t.spec_is_balanced(),
        strictly_ascending(t.key_seq()),
        forall|k: K| t.key_seq().contains(k) <==> #[trigger] t@.contains_key(k),
        t.key_seq().len() == t@.len(),
{
    lemma_rb_shape(t.root, black_height(t.root));
    lemma_left_leaning_two_three(t.root, true);
    lemma_inorder(t.root);
    lemma_count_is_len(t.root);
    lemma_inorder_len(t.root);
}

proof fn lemma_black_height_le_count<K, V>(t: Link<K, V>)
    ensures
        black_height(t) <= count(t),
    decreases t,
{
    if let Some(node) = t {
        lemma_black_height_le_count(node.left);
    }
}

proof fn lemma_inorder_len<K, V>(t: Link<K, V>)
    ensures
        inorder(t).len() == count(t),
    decreases t,
{
    if let Some(node) = t {
        lemma_inorder_len(node.left);
        lemma_inorder_len(node.right);
    }
}

/// The map that a well-formed tree holds is finite.
pub proof fn lemma_map_finite<K: KeyOrder, V>(t: &RedBlackTree<K, V>)
    requires
        t.wf(),
    ensures
        t@.dom().finite(),
{
    lemma_count_is_len(t.root);
}

/// The map that `put` of each pair in turn builds from an empty tree: each
/// `put` ensures that the tree's map becomes the old one with the pair inserted.
pub open spec fn map_of_puts<K, V>(pairs: Seq<(K, V)>) -> Map<K, V>
    decreases pairs.len(),
{
    if pairs.len() == 0 {
        Map::empty()
    } else {
        map_of_puts(pairs.drop_last()).insert(pairs.last().0, pairs.last().1)
    }
}

/// After a sequence of `put`s into an empty tree, a key is present exactly
/// when some pair carries it, its value is that of the last such pair, and
/// the size is the number of distinct keys.
pub proof fn lemma_puts<K, V>(pairs: Seq<(K, V)>)
    ensures
        forall|k: K| #[trigger]
            map_of_puts(pairs).contains_key(k) <==> exists|i: int| 0 <= i < pairs.len() && pairs[i].0 == k,
        forall|i: int|
            0 <= i < pairs.len() && (forall|j: int| i < j < pairs.len() ==> pairs[j].0 != pairs[i].0)
                ==> map_of_puts(pairs)[#[trigger] pairs[i].0] == pairs[i].1,
        map_of_puts(pairs).dom() == pairs.map_values(|p: (K, V)| p.0).to_set(),
        map_of_puts(pairs).dom().finite(),
    decreases pairs.len(),
{
    let keys = pairs.map_values(|p: (K, V)| p.0);
    if pairs.len() == 0 {
        assert(map_of_puts(pairs).dom() =~= keys.to_set());
    } else {
        let init = pairs.drop_last();
        let last = pairs.last();
        let n = pairs.len() - 1;
        lemma_puts(init);
        let m0 = map_of_puts(init);
        let m = map_of_puts(pairs);
        assert(m == m0.insert(last.0, last.1));
        assert forall|k: K| #[trigger] m.contains_key(k) <==> exists|i: int| 0 <= i < pairs.len() && pairs[i].0 == k by {
            if m.contains_key(k) && k != last.0 {
                assert(m0.contains_key(k));
                let i = choose|i: int| 0 <= i < init.len() && init[i].0 == k;
                assert(pairs[i] == init[i]);
            }
            if m.contains_key(k) && k == last.0 {
                assert(pairs[n].0 == k);
            }
            if exists|i: int| 0 <= i < pairs.len() && pairs[i].0 == k {
                let i = choose|i: int| 0 <= i < pairs.len() && pairs[i].0 == k;
                if i < n {
                    assert(init[i] == pairs[i]);
                    assert(m0.contains_key(k));
                }
            }
        }
        assert forall|i: int|
            0 <= i < pairs.len() && (forall|j: int| i < j < pairs.len() ==> pairs[j].0 != pairs[i].0)
                implies m[#[trigger] pairs[i].0] == pairs[i].1 by {
            if i < n {
                assert(pairs[n].0 != pairs[i].0);
                assert(init[i] == pairs[i]);
                assert forall|j: int| i < j < init.len() implies init[j].0 != init[i].0 by {
                    assert(init[j] == pairs[j]);
                }
            }
        }
        let keys0 = init.map_values(|p: (K, V)| p.0);
        assert(keys =~= keys0.push(last.0));
        keys0.lemma_push_to_set_commute(last.0);
        assert(m.dom() =~= keys.to_set());
    }
}

} // verus!
