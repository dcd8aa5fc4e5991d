//! The ordering vocabulary shared by the ordered containers of this crate.
//!
//! The containers are generic over a key type `K: Ord`.  Their contracts hold
//! for key types whose `cmp` is a strict total order that agrees with equality
//! of values; `total_order::<K>()` says exactly that, and the lemmas below
//! are the only way the containers use it.
use core::cmp::Ordering;
use vstd::laws_cmp::{obeys_cmp, obeys_cmp_ord, obeys_cmp_partial_ord, obeys_partial_cmp_spec_properties};
use vstd::laws_eq::obeys_concrete_eq;
use vstd::prelude::*;
use vstd::std_specs::cmp::{OrdSpec, PartialEqSpec, PartialOrdSpec};

verus! {

/// `a` sorts strictly before `b`.
pub open spec fn lt<K: Ord>(a: K, b: K) -> bool {
    a.cmp_spec(&b) == Ordering::Less
}

/// `a` sorts before `b`, or is `b`.
pub open spec fn le<K: Ord>(a: K, b: K) -> bool {
    a.cmp_spec(&b) != Ordering::Greater
}

/// `K::cmp` computes `cmp_spec`, `Equal` means equal values, `Greater` is
/// `Less` with the arguments exchanged, and `Less` is transitive.
#[verifier::opaque]
pub open spec fn total_order<K: Ord>() -> bool {
    &&& K::obeys_cmp_spec()
    &&& forall|a: K, b: K| #![trigger a.cmp_spec(&b)] a.cmp_spec(&b) == Ordering::Equal <==> a == b
    &&& forall|a: K, b: K|
        #![trigger a.cmp_spec(&b)]
        a.cmp_spec(&b) == Ordering::Greater <==> b.cmp_spec(&a) == Ordering::Less
    &&& forall|a: K, b: K, c: K|
        #![trigger a.cmp_spec(&b), b.cmp_spec(&c)]
        a.cmp_spec(&b) == Ordering::Less && b.cmp_spec(&c) == Ordering::Less ==> a.cmp_spec(&c)
            == Ordering::Less
}

/// A key type that obeys vstd's laws of comparison, and whose `==` is
/// equality of values, is totally ordered in the sense of this crate.  For
/// the integer types vstd's groups `group_laws_cmp` and `group_laws_eq` give
/// both.
pub proof fn lemma_total_order_from_laws<K: Ord>()
    requires
        obeys_cmp::<K>(),
        obeys_concrete_eq::<K>(),
    ensures
        total_order::<K>(),
{
    reveal(total_order);
    reveal(obeys_cmp_ord);
    reveal(obeys_cmp_partial_ord);
    reveal(obeys_partial_cmp_spec_properties);
    reveal(obeys_concrete_eq);
    assert forall|a: K, b: K| #![trigger a.cmp_spec(&b)] a.partial_cmp_spec(&b) == Some(a.cmp_spec(&b))
        && b.partial_cmp_spec(&a) == Some(b.cmp_spec(&a)) by {}
    assert forall|a: K, b: K| #![trigger a.cmp_spec(&b)] a.cmp_spec(&b) == Ordering::Equal implies a
        == b by {
        assert(a.partial_cmp_spec(&b) == Some(Ordering::Equal));
        assert(a.eq_spec(&b));
    }
    assert forall|a: K, b: K| #![trigger a.cmp_spec(&b)] a == b implies a.cmp_spec(&b)
        == Ordering::Equal by {
        assert(a.eq_spec(&b));
        assert(a.partial_cmp_spec(&b) == Some(Ordering::Equal));
    }
    assert forall|a: K, b: K, c: K|
        #![trigger a.cmp_spec(&b), b.cmp_spec(&c)]
        a.cmp_spec(&b) == Ordering::Less && b.cmp_spec(&c) == Ordering::Less implies a.cmp_spec(&c)
            == Ordering::Less by {
        assert(a.partial_cmp_spec(&b) == Some(Ordering::Less));
        assert(b.partial_cmp_spec(&c) == Some(Ordering::Less));
        assert(a.partial_cmp_spec(&c) == Some(Ordering::Less));
    }
}

/// Nothing sorts strictly before itself.
pub proof fn lemma_lt_irreflexive<K: Ord>(a: K)
    requires
        total_order::<K>(),
    ensures
        !lt(a, a),
{
    reveal(total_order);
    assert(a.cmp_spec(&a) == Ordering::Equal);
}

/// `lt` is transitive.
pub proof fn lemma_lt_transitive<K: Ord>(a: K, b: K, c: K)
    requires
        total_order::<K>(),
        lt(a, b),
        lt(b, c),
    ensures
        lt(a, c),
{
    reveal(total_order);
}

/// No two keys sort strictly before each other.
pub proof fn lemma_lt_asymmetric<K: Ord>(a: K, b: K)
    requires
        total_order::<K>(),
        lt(a, b),
    ensures
        !lt(b, a),
        a != b,
{
    reveal(total_order);
    assert(b.cmp_spec(&a) == Ordering::Greater);
}

/// `le` is transitive.
pub proof fn lemma_le_transitive<K: Ord>(a: K, b: K, c: K)
    requires
        total_order::<K>(),
        le(a, b),
        le(b, c),
    ensures
        le(a, c),
{
    reveal(total_order);
    if lt(c, a) {
        if lt(b, c) {
            assert(lt(b, a));
        } else if b == c {
        } else {
            assert(b.cmp_spec(&c) == Ordering::Greater);
        }
    }
}

/// Any two keys are comparable: one of them is `le` the other, and a key
/// that sorts strictly before another is `le` it.
pub proof fn lemma_le_total<K: Ord>(a: K, b: K)
    requires
        total_order::<K>(),
    ensures
        le(a, b) || le(b, a),
        lt(a, b) ==> le(a, b),
        !lt(a, b) ==> le(b, a),
        le(a, a),
{
    reveal(total_order);
    assert(a.cmp_spec(&a) == Ordering::Equal);
}

/// Whether `a` sorts strictly before `b`.
pub fn less<K: Ord>(a: &K, b: &K) -> (before: bool)
    requires
        total_order::<K>(),
    ensures
        before == lt(*a, *b),
{
    proof {
        reveal(total_order);
    }
    match a.cmp(b) {
        Ordering::Less => true,
        _ => false,
    }
}

/// Of two keys exactly one holds: the first sorts before the second, they
/// are equal, or the second sorts before the first.
pub proof fn lemma_trichotomy<K: Ord>(a: K, b: K)
    requires
        total_order::<K>(),
    ensures
        lt(a, b) || a == b || lt(b, a),
        lt(a, b) ==> a != b && !lt(b, a),
        lt(b, a) ==> a != b && !lt(a, b),
        le(a, b) <==> !lt(b, a),
        le(b, a) <==> !lt(a, b),
{
    reveal(total_order);
    assert(a.cmp_spec(&a) == Ordering::Equal);
}

} // verus!
