//! The comparisons that generic code asks of its element types, above all
//! of the keys of a search tree.
use vstd::prelude::*;
use vstd::std_specs::cmp::PartialEqSpec;
use vstd::std_specs::cmp::PartialOrdSpec;
use core::cmp::Ordering;

verus! {

/// `a` sorts strictly before `b` under `K`'s `<`.
pub open spec fn below<K: PartialOrd>(a: K, b: K) -> bool {
    a.partial_cmp_spec(&b) == Some(Ordering::Less)
}

/// What a search tree asks of its key type: `==` and `<` compute what their
/// specifications say, `==` is equality of values, and `<` is a strict total
/// order. Every primitive integer type qualifies.
pub open spec fn strict_total<K: PartialOrd>() -> bool {
    &&& K::obeys_eq_spec()
    &&& K::obeys_partial_cmp_spec()
    &&& forall|a: K, b: K| #[trigger] a.eq_spec(&b) <==> a == b
    &&& forall|a: K, b: K| #[trigger] below(a, b) ==> a != b && !below(b, a)
    &&& forall|a: K, b: K| a != b ==> #[trigger] below(a, b) || below(b, a)
    &&& forall|a: K, b: K, c: K| #[trigger] below(a, b) && #[trigger] below(b, c) ==> below(a, c)
}

/// The keys of `s` are strictly ascending from front to back.
pub open spec fn ascending<K: PartialOrd, V>(s: Seq<(K, V)>) -> bool {
    forall|i: int, j: int| 0 <= i < j < s.len() ==> below(#[trigger] s[i].0, #[trigger] s[j].0)
}

/// `a` sorts strictly after `b` under `T`'s `>`.
pub open spec fn above<T: PartialOrd>(a: T, b: T) -> bool {
    a.partial_cmp_spec(&b) == Some(Ordering::Greater)
}

/// `T`'s comparisons compute what their specification says.
pub open spec fn order_known<T: PartialOrd>() -> bool {
    T::obeys_partial_cmp_spec()
}

} // verus!
