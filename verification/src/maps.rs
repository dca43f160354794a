//! The concurrent map of the `dashmap` crate.
//!
//! A map is not looked into. For every kind of map that is held, a name beside
//! its owner gives its contents, and wrappers say over that name what the
//! crate's methods do. The methods of `DashMap` work through shared references;
//! the wrappers of those that change the map take it by `&mut`, so that what is
//! known of its contents cannot change behind a reader's back.

use vstd::prelude::*;

verus! {

#[verifier::external_type_specification]
#[verifier::external_body]
#[verifier::reject_recursive_types(K)]
#[verifier::reject_recursive_types(V)]
#[verifier::reject_recursive_types(S)]
pub struct ExDashMap<K, V, S>(dashmap::DashMap<K, V, S>);

/// Whether a list goes through a map: every entry once, in some order.
pub open spec fn goes_through<V>(list: Seq<(Seq<char>, V)>, map: Map<Seq<char>, V>) -> bool {
    &&& forall|i: int|
        0 <= i < list.len() ==> map.contains_key((#[trigger] list[i]).0) && map[list[i].0]
            == list[i].1
    &&& forall|k: Seq<char>| #[trigger]
        map.contains_key(k) ==> exists|i: int| 0 <= i < list.len() && (#[trigger] list[i]).0 == k
    &&& forall|i: int, j: int|
        0 <= i < j < list.len() ==> (#[trigger] list[i]).0 != (#[trigger] list[j]).0
}

} // verus!
