//! The names that lead to each instance from the top of a group of instances.

use ahash::AHashMap;
use vstd::prelude::*;

use crate::text::names_of;

verus! {

#[verifier::external_type_specification]
#[verifier::external_body]
pub struct ExRandomState(ahash::RandomState);

#[verifier::external_type_specification]
#[verifier::external_body]
#[verifier::reject_recursive_types(K)]
#[verifier::reject_recursive_types(V)]
#[verifier::reject_recursive_types(S)]
pub struct ExAHashMap<K, V, S>(ahash::AHashMap<K, V, S>);

/// The names that lead to an instance, by the value of its referent.
pub type Locations = AHashMap<u128, Vec<String>>;

/// What names lead to which instance.
pub uninterp spec fn locations_view(
    locations: AHashMap<u128, Vec<String>>,
) -> Map<u128, Seq<Seq<char>>>;

/// `AHashMap::default` makes a map without entries.
#[verifier::external_body]
pub(crate) fn no_locations() -> (res: Locations)
    ensures
        (locations_view(res) == Map::<u128, Seq<Seq<char>>>::empty()),
{
    AHashMap::default()
}

/// `AHashMap::insert` stores names under a key, in place of what was there.
#[verifier::external_body]
pub(crate) fn insert_location(locations: &mut Locations, key: u128, names: Vec<String>)
    ensures
        locations_view(*final(locations)) == locations_view(*old(locations)).insert(
            key,
            names_of(names@),
        ),
{
    locations.insert(key, names);
}

/// `AHashMap::get` finds the names stored under a key.
#[verifier::external_body]
pub(crate) fn get_location(locations: &Locations, key: u128) -> (res: Option<&Vec<String>>)
    ensures
        res is Some <==> locations_view(*locations).contains_key(key),
        res matches Some(names) ==> names_of(names@) == locations_view(*locations)[key],
{
    locations.get(&key)
}

} // verus!
