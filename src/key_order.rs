use std::cmp::Ordering;
use vstd::prelude::*;

verus! {

/// A total order on keys: `le` states it in spec terms and `compare`
/// decides it at run time.
pub trait KeyOrder: Sized {
    spec fn le(self, other: Self) -> bool;

    proof fn lemma_reflexive(x: Self)
        ensures
            x.le(x),
    ;

    proof fn lemma_transitive(x: Self, y: Self, z: Self)
        requires
            x.le(y),
            y.le(z),
        ensures
            x.le(z),
    ;

    proof fn lemma_antisymmetric(x: Self, y: Self)
        requires
            x.le(y),
            y.le(x),
        ensures
            x == y,
    ;

    proof fn lemma_total(x: Self, y: Self)
        ensures
            x.le(y) || y.le(x),
    ;

    fn compare(&self, other: &Self) -> (o: Ordering)
        ensures
            o == Ordering::Less <==> self.le(*other) && *self != *other,
            o == Ordering::Equal <==> *self == *other,
            o == Ordering::Greater <==> other.le(*self) && *self != *other,
    ;
}

/// Strictly below in the key order.
pub open spec fn lt<K: KeyOrder>(a: K, b: K) -> bool {
    a.le(b) && a != b
}

/// `lt` is transitive.
pub proof fn lemma_lt_transitive<K: KeyOrder>(a: K, b: K, c: K)
    requires
        lt(a, b),
        lt(b, c),
    ensures
        lt(a, c),
{
    K::lemma_transitive(a, b, c);
    if a == c {
        K::lemma_antisymmetric(a, b);
    }
}

/// `lt` never holds both ways.
pub proof fn lemma_lt_asymmetric<K: KeyOrder>(a: K, b: K)
    requires
        lt(a, b),
    ensures
        !lt(b, a),
{
    if lt(b, a) {
        K::lemma_antisymmetric(a, b);
    }
}

impl KeyOrder for i32 {
    open spec fn le(self, other: Self) -> bool {
        self <= other
    }

    proof fn lemma_reflexive(x: Self) {
    }

    proof fn lemma_transitive(x: Self, y: Self, z: Self) {
    }

    proof fn lemma_antisymmetric(x: Self, y: Self) {
    }

    proof fn lemma_total(x: Self, y: Self) {
    }

    fn compare(&self, other: &Self) -> (o: Ordering) {
        if *self < *other {
            Ordering::Less
        } else if *self == *other {
            Ordering::Equal
        } else {
            Ordering::Greater
        }
    }
}

impl KeyOrder for i64 {
    open spec fn le(self, other: Self) -> bool {
        self <= other
    }

    proof fn lemma_reflexive(x: Self) {
    }

    proof fn lemma_transitive(x: Self, y: Self, z: Self) {
    }

    proof fn lemma_antisymmetric(x: Self, y: Self) {
    }

    proof fn lemma_total(x: Self, y: Self) {
    }

    fn compare(&self, other: &Self) -> (o: Ordering) {
        if *self < *other {
            Ordering::Less
        } else if *self == *other {
            Ordering::Equal
        } else {
            Ordering::Greater
        }
    }
}

impl KeyOrder for u64 {
    open spec fn le(self, other: Self) -> bool {
        self <= other
    }

    proof fn lemma_reflexive(x: Self) {
    }

    proof fn lemma_transitive(x: Self, y: Self, z: Self) {
    }

    proof fn lemma_antisymmetric(x: Self, y: Self) {
    }

    proof fn lemma_total(x: Self, y: Self) {
    }

    fn compare(&self, other: &Self) -> (o: Ordering) {
        if *self < *other {
            Ordering::Less
        } else if *self == *other {
            Ordering::Equal
        } else {
            Ordering::Greater
        }
    }
}

} // verus!
