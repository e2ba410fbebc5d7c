//! The order keys are compared by: `K`'s own `Ord`, taken to be a strict
//! total order that agrees with equality.
use core::cmp::Ordering;
use vstd::laws_cmp::obeys_cmp;
use vstd::laws_eq::obeys_concrete_eq;
use vstd::prelude::*;
use vstd::std_specs::cmp::{OrdSpec, PartialEqSpec, PartialOrdSpec};

verus! {

/// `K`'s comparison is deterministic, transitive, total, and reports
/// `Equal` exactly for equal keys.
pub open spec fn total_order<K: Ord>() -> bool {
    obeys_cmp::<K>() && obeys_concrete_eq::<K>()
}

/// `a` comes strictly before `b`.
pub open spec fn key_lt<K: Ord>(a: K, b: K) -> bool {
    a.cmp_spec(&b) == Ordering::Less
}

/// The pairs' keys strictly ascend.
pub open spec fn sorted_by_key<K: Ord, V>(s: Seq<(K, V)>) -> bool {
    forall|i: int, j: int| 0 <= i < j < s.len() ==> key_lt(#[trigger] s[i].0, #[trigger] s[j].0)
}

/// What one comparison says.
pub proof fn lemma_cmp<K: Ord>(a: K, b: K)
    requires
        total_order::<K>(),
    ensures
        K::obeys_cmp_spec(),
        a.cmp_spec(&b) == Ordering::Equal <==> a == b,
        a.cmp_spec(&b) == Ordering::Greater <==> key_lt(b, a),
        key_lt(a, b) ==> a != b && !key_lt(b, a),
        a != b ==> key_lt(a, b) || key_lt(b, a),
{
    reveal(vstd::laws_cmp::obeys_cmp_ord);
    reveal(vstd::laws_cmp::obeys_cmp_partial_ord);
    reveal(vstd::laws_cmp::obeys_partial_cmp_spec_properties);
    reveal(obeys_concrete_eq);
    assert(a.partial_cmp_spec(&b) == Some(a.cmp_spec(&b)));
    assert(b.partial_cmp_spec(&a) == Some(b.cmp_spec(&a)));
    assert(a.eq_spec(&b) <==> a == b);
}

/// Strict order is transitive.
pub proof fn lemma_lt_trans<K: Ord>(a: K, b: K, c: K)
    requires
        total_order::<K>(),
        key_lt(a, b),
        key_lt(b, c),
    ensures
        key_lt(a, c),
{
    reveal(vstd::laws_cmp::obeys_cmp_ord);
    reveal(vstd::laws_cmp::obeys_partial_cmp_spec_properties);
    assert(a.partial_cmp_spec(&b) == Some(a.cmp_spec(&b)));
    assert(b.partial_cmp_spec(&c) == Some(b.cmp_spec(&c)));
    assert(a.partial_cmp_spec(&c) == Some(a.cmp_spec(&c)));
}

/// Compares two keys.
pub fn compare<K: Ord>(a: &K, b: &K) -> (r: Ordering)
    requires
        total_order::<K>(),
    ensures
        r == Ordering::Equal <==> *a == *b,
        r == Ordering::Less <==> key_lt(*a, *b),
        r == Ordering::Greater <==> key_lt(*b, *a),
{
    proof {
        lemma_cmp(*a, *b);
    }
    a.cmp(b)
}

} // verus!
