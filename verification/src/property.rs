//! The properties of an instance, and the paths its references are kept as.

use std::str::FromStr;

use rbx_dom_weak::types::Variant;
use rbx_dom_weak::{ustr, UstrMap};
use vstd::prelude::*;

use crate::ref_path::{PathView, RefPath};
use crate::referent::Ref;

verus! {

#[verifier::external_type_specification]
#[verifier::external_body]
pub struct ExUstr(rbx_dom_weak::Ustr);

#[verifier::external_type_specification]
#[verifier::external_body]
pub struct ExVariant(rbx_dom_weak::types::Variant);

#[verifier::external_type_specification]
#[verifier::external_body]
pub struct ExIdentityHasher(ustr::IdentityHasher);

#[verifier::external_type_specification]
#[verifier::external_body]
#[verifier::reject_recursive_types(H)]
pub struct ExBuildHasherDefault<H>(std::hash::BuildHasherDefault<H>);

/// The properties of an instance by name.
pub type Properties = UstrMap<Variant>;

/// The paths of the references an instance holds, by the name of the property
/// that holds each of them.
pub type RefPaths = UstrMap<RefPath>;

/// What a property holds: a reference, text, or something that is only ever
/// carried along.
pub enum ValueView {
    Reference(Ref),
    Text(Seq<char>),
    Other(Variant),
}

/// A value to store in a property.
pub enum Value {
    Reference(Ref),
    Text(String),
}

impl View for Value {
    type V = ValueView;

    open spec fn view(&self) -> ValueView {
        match self {
            Value::Reference(target) => ValueView::Reference(*target),
            Value::Text(text) => ValueView::Text(text@),
        }
    }
}

/// The instance that a value points at, if it is a reference.
pub open spec fn target_in(value: ValueView) -> Option<Ref> {
    match value {
        ValueView::Reference(target) => Some(target),
        _ => None,
    }
}

/// The instance that the property `name` points at, if there is such a
/// property and it is a reference.
pub open spec fn target_of(properties: Map<Seq<char>, ValueView>, name: Seq<char>) -> Option<Ref> {
    if properties.contains_key(name) {
        target_in(properties[name])
    } else {
        None
    }
}

/// What the properties of an instance are.
pub uninterp spec fn properties_view(properties: UstrMap<Variant>) -> Map<Seq<char>, ValueView>;

/// What paths are kept under which property.
pub uninterp spec fn paths_view(paths: UstrMap<RefPath>) -> Map<Seq<char>, PathView>;

/// Every property once, in any order, with the instance it points at.
pub open spec fn lists_targets(
    entries: Seq<(String, Option<Ref>)>,
    properties: Map<Seq<char>, ValueView>,
) -> bool {
    &&& forall|i: int|
        0 <= i < entries.len() ==> properties.contains_key(#[trigger] entries[i].0@)
            && entries[i].1 == target_in(properties[entries[i].0@])
    &&& forall|i: int, j: int|
        0 <= i < j < entries.len() ==> (#[trigger] entries[i]).0@ != (#[trigger] entries[j]).0@
    &&& forall|name: Seq<char>| #[trigger]
        properties.contains_key(name) ==> exists|i: int|
            0 <= i < entries.len() && (#[trigger] entries[i]).0@ == name
}

/// `name` is among the first `n` entries.
pub open spec fn among_first(entries: Seq<(String, Option<Ref>)>, n: int, name: Seq<char>) -> bool {
    exists|i: int| 0 <= i < n && (#[trigger] entries[i]).0@ == name
}

/// Looking at one more entry adds the name of that entry.
pub proof fn one_more_entry(entries: Seq<(String, Option<Ref>)>, n: int)
    requires
        0 <= n < entries.len(),
    ensures
        forall|name: Seq<char>| #[trigger]
            among_first(entries, n + 1, name) <==> among_first(entries, n, name) || name
                == entries[n].0@,
{
    assert forall|name: Seq<char>| #[trigger]
        among_first(entries, n + 1, name) <==> among_first(entries, n, name) || name
            == entries[n].0@ by {
        if among_first(entries, n + 1, name) {
            let k = choose|k: int| 0 <= k < n + 1 && (#[trigger] entries[k]).0@ == name;
            assert(entries[k].0@ == name);
        }
        if among_first(entries, n, name) {
            let k = choose|k: int| 0 <= k < n && (#[trigger] entries[k]).0@ == name;
            assert(entries[k].0@ == name);
        }
    }
}

/// All entries together name every property.
pub proof fn all_entries_listed(
    entries: Seq<(String, Option<Ref>)>,
    properties: Map<Seq<char>, ValueView>,
)
    requires
        lists_targets(entries, properties),
    ensures
        forall|name: Seq<char>| #[trigger]
            among_first(entries, entries.len() as int, name) <==> properties.contains_key(name),
{
    assert forall|name: Seq<char>| #[trigger]
        among_first(entries, entries.len() as int, name) <==> properties.contains_key(name) by {
        if properties.contains_key(name) {
            let k = choose|k: int| 0 <= k < entries.len() && (#[trigger] entries[k]).0@ == name;
            assert(entries[k].0@ == name);
        }
        if among_first(entries, entries.len() as int, name) {
            let k = choose|k: int| 0 <= k < entries.len() && (#[trigger] entries[k]).0@ == name;
            assert(properties.contains_key(entries[k].0@));
        }
    }
}

/// Every path once, in any order, under the property it belongs to.
pub open spec fn lists_paths(
    entries: Seq<(String, &RefPath)>,
    paths: Map<Seq<char>, PathView>,
) -> bool {
    &&& forall|i: int|
        0 <= i < entries.len() ==> paths.contains_key(#[trigger] entries[i].0@)
            && entries[i].1@ == paths[entries[i].0@]
    &&& forall|i: int, j: int|
        0 <= i < j < entries.len() ==> (#[trigger] entries[i]).0@ != (#[trigger] entries[j]).0@
    &&& forall|name: Seq<char>| #[trigger]
        paths.contains_key(name) ==> exists|i: int|
            0 <= i < entries.len() && (#[trigger] entries[i]).0@ == name
}

/// `UstrMap::default` makes a map without entries.
#[verifier::external_body]
pub(crate) fn no_properties() -> (res: Properties)
    ensures
        (properties_view(res) == Map::<Seq<char>, ValueView>::empty()),
{
    UstrMap::default()
}

/// `UstrMap::iter` visits every entry once, in no particular order. A
/// `Variant::Ref` is handed out as the referent it holds, every other variant
/// as none.
#[verifier::external_body]
pub(crate) fn property_targets(properties: &Properties) -> (res: Vec<(String, Option<Ref>)>)
    ensures
        lists_targets(res@, properties_view(*properties)),
{
    properties
        .iter()
        .map(|(name, value)| {
            let target = match value {
                Variant::Ref(id) => {
                    Some(Ref { value: u128::from_str_radix(&id.to_string(), 16).unwrap() })
                },
                _ => None,
            };
            (name.to_string(), target)
        })
        .collect()
}

/// `UstrMap::get` finds the value stored under a name, handed out as in
/// [`property_targets`].
#[verifier::external_body]
pub(crate) fn property_target(properties: &Properties, name: &str) -> (res: Option<Ref>)
    ensures
        res == target_of(properties_view(*properties), name@),
{
    match properties.get(&ustr(name)) {
        Some(Variant::Ref(id)) => {
            Some(Ref { value: u128::from_str_radix(&id.to_string(), 16).unwrap() })
        },
        _ => None,
    }
}

/// `UstrMap::insert` stores a value under a name, in place of what was there.
#[verifier::external_body]
pub(crate) fn insert_property(properties: &mut Properties, name: &str, value: Value)
    ensures
        properties_view(*final(properties)) == properties_view(*old(properties)).insert(
            name@,
            value@,
        ),
{
    let value = match value {
        Value::Reference(target) => Variant::Ref(
            rbx_dom_weak::types::Ref::from_str(&format!("{:032x}", target.value)).unwrap(),
        ),
        Value::Text(text) => Variant::String(text),
    };
    properties.insert(ustr(name), value);
}

/// `UstrMap::remove` takes out what is stored under a name, if anything is.
#[verifier::external_body]
pub(crate) fn remove_property(properties: &mut Properties, name: &str)
    ensures
        properties_view(*final(properties)) == properties_view(*old(properties)).remove(name@),
{
    properties.remove(&ustr(name));
}

/// `UstrMap::extend` stores every entry of another map, in place of what was
/// stored under the same name.
#[verifier::external_body]
pub(crate) fn extend_properties(properties: &mut Properties, other: Properties)
    ensures
        properties_view(*final(properties)) == properties_view(
            *old(properties),
        ).union_prefer_right(properties_view(other)),
{
    properties.extend(other);
}

/// `UstrMap::clone` makes a map with the same entries.
#[verifier::external_body]
pub(crate) fn clone_properties(properties: &Properties) -> (res: Properties)
    ensures
        properties_view(res) == properties_view(*properties),
{
    properties.clone()
}

/// `UstrMap::default` makes a map without entries.
#[verifier::external_body]
pub(crate) fn no_paths() -> (res: RefPaths)
    ensures
        (paths_view(res) == Map::<Seq<char>, PathView>::empty()),
{
    UstrMap::default()
}

/// `UstrMap::is_empty` tells whether a map has no entries.
#[verifier::external_body]
pub(crate) fn has_no_paths(paths: &RefPaths) -> (res: bool)
    ensures
        res == (paths_view(*paths).dom() == Set::<Seq<char>>::empty()),
{
    paths.is_empty()
}

/// `UstrMap::iter` visits every entry once, in no particular order.
#[verifier::external_body]
pub(crate) fn path_entries(paths: &RefPaths) -> (res: Vec<(String, &RefPath)>)
    ensures
        lists_paths(res@, paths_view(*paths)),
{
    paths.iter().map(|(name, path)| (name.to_string(), path)).collect()
}

/// `UstrMap::get` finds the path stored under a name.
#[verifier::external_body]
pub(crate) fn get_path<'a>(paths: &'a RefPaths, name: &str) -> (res: Option<&'a RefPath>)
    ensures
        res is Some <==> paths_view(*paths).contains_key(name@),
        res matches Some(path) ==> path@ == paths_view(*paths)[name@],
{
    paths.get(&ustr(name))
}

/// `UstrMap::insert` stores a path under a name, in place of what was there.
#[verifier::external_body]
pub(crate) fn insert_path(paths: &mut RefPaths, name: &str, path: RefPath)
    ensures
        paths_view(*final(paths)) == paths_view(*old(paths)).insert(name@, path@),
{
    paths.insert(ustr(name), path);
}

/// `UstrMap::extend` stores every entry of another map, in place of what was
/// stored under the same name.
#[verifier::external_body]
pub(crate) fn extend_paths(paths: &mut RefPaths, other: RefPaths)
    ensures
        paths_view(*final(paths)) == paths_view(*old(paths)).union_prefer_right(paths_view(other)),
{
    paths.extend(other);
}

} // verus!
