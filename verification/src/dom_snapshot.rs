//! Reading the instances of a model file.

use std::collections::{HashMap, HashSet};

use rbx_dom_weak::WeakDom;
use vstd::prelude::*;

use crate::dom::{
    children_make_subtree, complete, dom_view, generations, intact, into_raw, look_up, present,
    raw_view, subtree, subtree_shows_children, take_out, FileInstanceView, RawDom,
};
use crate::dom_paths::{intact_names_are_collected, ref_paths};
use crate::growth::{distinct_among, distinct_ids, holds_id};
use crate::location::{get_location, locations_view, Locations};
use crate::property::{
    all_entries_listed, among_first, insert_path, lists_targets, no_paths, one_more_entry,
    paths_view, properties_view, property_targets, remove_property, target_in, target_of,
    Properties, RefPaths, ValueView,
};
use crate::ref_path::{PathView, RefPath};
use crate::referent::{nothing, Ref};
use crate::refs::{child_is_lower, collected, height, height_of_all};
use crate::snapshot::{snapshot_shows_children, Meta, MetaView, Snapshot, SnapshotView};
use crate::text::copy_names;

verus! {

broadcast use vstd::std_specs::hash::group_hash_axioms;

/// The class of the instances that a mesh belongs to.
pub open spec fn mesh_class() -> Seq<char> {
    "MeshPart"@
}

/// The properties that are no references.
pub open spec fn without_references(
    properties: Map<Seq<char>, ValueView>,
) -> Map<Seq<char>, ValueView> {
    Map::new(
        |name: Seq<char>|
            properties.contains_key(name) && target_in(properties[name]) is None,
        |name: Seq<char>| properties[name],
    )
}

/// The paths of the references that an instance holds to others of its file,
/// `depth` generations below the top of it.
pub open spec fn paths_within(
    properties: Map<Seq<char>, ValueView>,
    paths: Map<u128, Seq<Seq<char>>>,
    depth: nat,
) -> Map<Seq<char>, PathView> {
    Map::new(
        |name: Seq<char>|
            target_of(properties, name) matches Some(target) && paths.contains_key(target.value),
        |name: Seq<char>|
            PathView::Relative {
                up: depth,
                down: paths[target_of(properties, name)->0.value],
            },
    )
}

/// The instances of a file without the ids they had in it: every reference
/// between them is kept as a path, and all others are left out.
pub open spec fn detached(
    file: SnapshotView,
    paths: Map<u128, Seq<Seq<char>>>,
    meshes: Map<u128, String>,
    depth: nat,
) -> SnapshotView
    decreases file,
{
    SnapshotView {
        id: nothing(),
        meta: MetaView {
            id: None,
            refs: paths_within(file.properties, paths, depth),
            mesh_source: if file.class == mesh_class() && meshes.contains_key(file.id.value) {
                Some(meshes[file.id.value]@)
            } else {
                None
            },
        },
        name: file.name,
        class: file.class,
        properties: without_references(file.properties),
        children: Seq::new(
            file.children.len(),
            |i: int|
                if 0 <= i < file.children.len() {
                    detached(file.children[i], paths, meshes, depth + 1)
                } else {
                    file
                },
        ),
    }
}

/// Takes the references out of the properties, and returns the paths of those
/// that stay in the file.
fn detach_references(properties: &mut Properties, paths: &Locations, depth: usize) -> (res:
    RefPaths)
    ensures
        properties_view(*final(properties)) == without_references(
            properties_view(*old(properties)),
        ),
        paths_view(res) == paths_within(
            properties_view(*old(properties)),
            locations_view(*paths),
            depth as nat,
        ),
{
    let ghost given = properties_view(*properties);
    let ghost kept = without_references(given);
    let ghost goal = paths_within(given, locations_view(*paths), depth as nat);
    let entries = property_targets(properties);
    let mut refs = no_paths();
    let mut i: usize = 0;
    while i < entries.len()
        invariant
            0 <= i <= entries.len(),
            kept == without_references(given),
            goal == paths_within(given, locations_view(*paths), depth as nat),
            lists_targets(entries@, given),
            forall|name: Seq<char>|
                #![trigger properties_view(*properties).contains_key(name)]
                #![trigger properties_view(*properties)[name]]
                {
                    &&& properties_view(*properties).contains_key(name) <==> if among_first(
                        entries@,
                        i as int,
                        name,
                    ) {
                        kept.contains_key(name)
                    } else {
                        given.contains_key(name)
                    }
                    &&& properties_view(*properties).contains_key(name) ==> properties_view(
                        *properties,
                    )[name] == given[name]
                },
            forall|name: Seq<char>|
                #![trigger paths_view(refs).contains_key(name)]
                #![trigger paths_view(refs)[name]]
                {
                    &&& paths_view(refs).contains_key(name) <==> goal.contains_key(name)
                        && among_first(entries@, i as int, name)
                    &&& paths_view(refs).contains_key(name) ==> paths_view(refs)[name] == goal[name]
                },
        decreases entries.len() - i,
    {
        let name = entries[i].0.as_str();
        assert(given.contains_key(entries@[i as int].0@));
        if let Some(target) = entries[i].1 {
            if let Some(down) = get_location(paths, target.value) {
                let path = RefPath::Relative { up: depth, down: copy_names(down) };
                insert_path(&mut refs, name, path);
            }
            remove_property(properties, name);
        }
        proof {
            one_more_entry(entries@, i as int);
        }
        i = i + 1;
    }
    proof {
        all_entries_listed(entries@, given);
        assert(properties_view(*properties) =~= kept);
        assert(paths_view(refs) =~= goal);
    }
    refs
}

/// Takes the instance and its descendants out of the file.
fn walk(
    id: Ref,
    raw_dom: &mut RawDom,
    paths: &Locations,
    mesh_sources: &HashMap<u128, String>,
    depth: usize,
    Ghost(dom): Ghost<Map<u128, FileInstanceView>>,
    Ghost(n): Ghost<nat>,
) -> (res: Snapshot)
    requires
        complete(dom, id, n),
        distinct_ids(generations(dom, id, n)),
        depth + height(generations(dom, id, n)) <= usize::MAX,
        forall|held: Ref| #[trigger]
            holds_id(generations(dom, id, n), held) ==> raw_view(*old(raw_dom)).contains_key(
                held.value,
            ) && raw_view(*old(raw_dom))[held.value] == dom[held.value],
    ensures
        res@ == detached(
            generations(dom, id, n),
            locations_view(*paths),
            mesh_sources@,
            depth as nat,
        ),
        forall|other: Ref|
            !#[trigger] holds_id(generations(dom, id, n), other) ==> {
                &&& raw_view(*final(raw_dom)).contains_key(other.value) == raw_view(
                    *old(raw_dom),
                ).contains_key(other.value)
                &&& raw_view(*final(raw_dom))[other.value] == raw_view(*old(raw_dom))[other.value]
            },
    decreases n,
{
    broadcast use snapshot_shows_children;

    let ghost file = generations(dom, id, n);
    let ghost goal = detached(file, locations_view(*paths), mesh_sources@, depth as nat);
    let ghost start = raw_view(*raw_dom);
    assert(holds_id(file, id));
    let mut instance = match take_out(raw_dom, id) {
        Some(instance) => instance,
        None => {
            return Snapshot::new();
        },
    };
    proof {
        assert forall|k: int, held: Ref|
            0 <= k < file.children.len() && #[trigger] holds_id(file.children[k], held) implies
            raw_view(*raw_dom).contains_key(held.value) && raw_view(*raw_dom)[held.value]
                == dom[held.value] by {
            assert(holds_id(file, held));
            assert(!holds_id(file.children[k], file.id));
        }
    }
    let mut children: Vec<Snapshot> = Vec::new();
    let mut i: usize = 0;
    while i < instance.children.len()
        invariant
            0 <= i <= instance.children.len(),
            instance@ == dom[id.value],
            complete(dom, id, n),
            distinct_ids(file),
            file == generations(dom, id, n),
            file.children.len() == instance.children.len(),
            depth + height_of_all(file.children) <= usize::MAX,
            children.len() == i,
            forall|k: int|
                0 <= k < i ==> (#[trigger] children[k])@ == detached(
                    file.children[k],
                    locations_view(*paths),
                    mesh_sources@,
                    (depth + 1) as nat,
                ),
            forall|k: int, held: Ref|
                i <= k < file.children.len() && #[trigger] holds_id(file.children[k], held)
                    ==> raw_view(*raw_dom).contains_key(held.value)
                    && raw_view(*raw_dom)[held.value] == dom[held.value],
            forall|other: Ref|
                !#[trigger] holds_id(file, other) ==> {
                    &&& raw_view(*raw_dom).contains_key(other.value) == start.contains_key(
                        other.value,
                    )
                    &&& raw_view(*raw_dom)[other.value] == start[other.value]
                },
        decreases instance.children.len() - i,
    {
        let child = instance.children[i];
        let ghost lower = generations(dom, child, (n - 1) as nat);
        proof {
            assert(complete(dom, dom[id.value].children[i as int], (n - 1) as nat));
            assert(file.children[i as int] == lower);
            assert(distinct_ids(file.children[i as int]));
            child_is_lower(file.children, i as int);
            assert forall|held: Ref| #[trigger] holds_id(lower, held) implies raw_view(
                *raw_dom,
            ).contains_key(held.value) && raw_view(*raw_dom)[held.value] == dom[held.value] by {
                assert(holds_id(file.children[i as int], held));
            }
        }
        let taken = walk(
            child,
            raw_dom,
            paths,
            mesh_sources,
            depth + 1,
            Ghost(dom),
            Ghost((n - 1) as nat),
        );
        proof {
            assert forall|k: int, held: Ref|
                i + 1 <= k < file.children.len() && #[trigger] holds_id(
                    file.children[k],
                    held,
                ) implies raw_view(*raw_dom).contains_key(held.value)
                && raw_view(*raw_dom)[held.value] == dom[held.value] by {
                assert(!holds_id(lower, held)) by {
                    if holds_id(lower, held) {
                        assert(holds_id(file.children[i as int], held));
                    }
                }
            }
            assert forall|other: Ref| !#[trigger] holds_id(file, other) implies !holds_id(
                lower,
                other,
            ) by {
                if holds_id(lower, other) {
                    assert(holds_id(file.children[i as int], other));
                }
            }
        }
        children.push(taken);
        i = i + 1;
    }
    let mut meta = Meta::new();
    let mesh_part: String = "MeshPart".to_owned();
    if instance.class == mesh_part {
        let source: Option<String> = match mesh_sources.get(&id.value) {
            Some(source) => Some(source.clone()),
            None => None,
        };
        meta.set_mesh_source(source);
    }
    let refs = detach_references(&mut instance.properties, paths, depth);
    meta.set_refs(refs);
    let res = Snapshot::new().with_meta(meta).with_name(instance.name.as_str()).with_class(
        instance.class.as_str(),
    ).with_properties(instance.properties).with_children(children);
    assert(res@.children =~= goal.children);
    assert(res@.meta == goal.meta);
    res
}

/// None of the ids that a snapshot holds is among `seen`.
spec fn apart(file: SnapshotView, seen: Set<u128>) -> bool {
    forall|held: Ref| #[trigger] holds_id(file, held) ==> !seen.contains(held.value)
}

/// There are not that many numbers.
proof fn lemma_numbers_are_bounded(seen: Set<u128>)
    requires
        seen.finite(),
    ensures
        seen.len() <= u128::MAX + 1,
{
    let all = vstd::set_lib::set_int_range(0, u128::MAX + 1);
    vstd::set_lib::lemma_int_range(0, u128::MAX + 1);
    let f = |value: u128| value as int;
    let images = seen.map(f);
    assert(images.subset_of(all));
    vstd::set_lib::lemma_len_subset(images, all);
    vstd::set_lib::lemma_map_size(seen, images, f);
}

/// What is said of an instance and its descendants is said of each child too.
proof fn lemma_child_is_apart(
    dom: Map<u128, FileInstanceView>,
    id: Ref,
    start: Set<u128>,
    seen: Set<u128>,
    i: int,
)
    requires
        intact(dom, id),
        apart(subtree(dom, id), start),
        0 <= i < dom[id.value].children.len(),
        forall|other: Ref| #[trigger]
            seen.contains(other.value) ==> start.contains(other.value) || other == id || exists|
                k: int,
            |
                0 <= k < i && holds_id(
                    #[trigger] subtree(dom, dom[id.value].children[k]),
                    other,
                ),
    ensures
        intact(dom, dom[id.value].children[i]),
        apart(subtree(dom, dom[id.value].children[i]), seen),
{
    let kids = dom[id.value].children;
    let file = subtree(dom, id);
    subtree_shows_children(dom, id);
    let own = subtree(dom, kids[i]);
    assert(file.children[i] == own);
    assert(distinct_ids(file.children[i]));
    assert(present(dom, kids[i]));
    assert forall|held: Ref| #[trigger] holds_id(own, held) implies !seen.contains(held.value) by {
        assert(holds_id(file.children[i], held));
        assert(holds_id(file, held));
        assert(!holds_id(file.children[i], file.id));
        if seen.contains(held.value) {
            let k = choose|k: int| 0 <= k < i && holds_id(#[trigger] subtree(dom, kids[k]), held);
            assert(holds_id(file.children[k], held));
        }
    }
}

/// Children that are there, apart from each other and from their parent, make
/// up what is below it.
proof fn lemma_children_are_apart(dom: Map<u128, FileInstanceView>, id: Ref, start: Set<u128>)
    requires
        dom.contains_key(id.value),
        !start.contains(id.value),
        forall|k: int|
            0 <= k < dom[id.value].children.len() ==> intact(
                dom,
                #[trigger] dom[id.value].children[k],
            ) && apart(subtree(dom, dom[id.value].children[k]), start.insert(id.value)),
        forall|k: int, l: int, held: Ref|
            0 <= k < l < dom[id.value].children.len() && #[trigger] holds_id(
                subtree(dom, dom[id.value].children[k]),
                held,
            ) && #[trigger] holds_id(subtree(dom, dom[id.value].children[l]), held) ==> false,
    ensures
        intact(dom, id),
        apart(subtree(dom, id), start),
        forall|held: Ref| #[trigger]
            holds_id(subtree(dom, id), held) <==> held == id || exists|k: int|
                0 <= k < dom[id.value].children.len() && holds_id(
                    #[trigger] subtree(dom, dom[id.value].children[k]),
                    held,
                ),
{
    let kids = dom[id.value].children;
    let file = subtree(dom, id);
    assert forall|k: int| 0 <= k < kids.len() implies present(dom, #[trigger] kids[k]) by {
        assert(intact(dom, dom[id.value].children[k]));
    }
    children_make_subtree(dom, id);
    subtree_shows_children(dom, id);
    assert forall|k: int| 0 <= k < file.children.len() implies distinct_ids(
        #[trigger] file.children[k],
    ) && !holds_id(file.children[k], file.id) by {
        assert(intact(dom, dom[id.value].children[k]));
        if holds_id(subtree(dom, kids[k]), id) {
            assert(start.insert(id.value).contains(id.value));
        }
    }
    assert forall|k: int, l: int, held: Ref|
        0 <= k < l < file.children.len() && #[trigger] holds_id(file.children[k], held)
            && #[trigger] holds_id(file.children[l], held) implies false by {
        assert(holds_id(subtree(dom, dom[id.value].children[k]), held));
        assert(holds_id(subtree(dom, dom[id.value].children[l]), held));
    }
    assert(distinct_among(file.children));
    assert forall|held: Ref| #[trigger]
        holds_id(file, held) <==> held == id || exists|k: int|
            0 <= k < kids.len() && holds_id(#[trigger] subtree(dom, kids[k]), held) by {
        if holds_id(file, held) && held != id {
            let k = choose|k: int|
                0 <= k < file.children.len() && holds_id(#[trigger] file.children[k], held);
            assert(holds_id(subtree(dom, kids[k]), held));
        }
        if exists|k: int| 0 <= k < kids.len() && holds_id(#[trigger] subtree(dom, kids[k]), held) {
            let k = choose|k: int|
                0 <= k < kids.len() && holds_id(#[trigger] subtree(dom, kids[k]), held);
            assert(holds_id(file.children[k], held));
        }
    }
    assert forall|held: Ref| #[trigger] holds_id(file, held) implies !start.contains(
        held.value,
    ) by {
        if held != id {
            let k = choose|k: int|
                0 <= k < kids.len() && holds_id(#[trigger] subtree(dom, kids[k]), held);
            assert(intact(dom, dom[id.value].children[k]));
        }
    }
}

/// Tells whether the instance and its descendants are all there, each in one
/// place and none among those that were seen before. If so, they have been
/// seen now.
fn visit(dom: &WeakDom, id: Ref, seen: &mut HashSet<u128>) -> (res: bool)
    requires
        old(seen)@.finite(),
    ensures
        final(seen)@.finite(),
        res <==> intact(dom_view(*dom), id) && apart(subtree(dom_view(*dom), id), old(seen)@),
        res ==> forall|other: Ref| #[trigger]
            final(seen)@.contains(other.value) <==> old(seen)@.contains(other.value) || holds_id(
                subtree(dom_view(*dom), id),
                other,
            ),
        old(seen)@.subset_of(final(seen)@),
    decreases u128::MAX + 1 - old(seen)@.len(),
{
    let ghost view = dom_view(*dom);
    let ghost start = seen@;
    let ghost file = subtree(view, id);
    proof {
        lemma_numbers_are_bounded(start);
        assert(holds_id(file, file.id));
        if present(view, id) {
            subtree_shows_children(view, id);
        }
    }
    let children = match look_up(dom, id) {
        Some((_, children)) => children,
        None => {
            return false;
        },
    };
    if seen.contains(&id.value) {
        return false;
    }
    seen.insert(id.value);
    let mut i: usize = 0;
    while i < children.len()
        invariant
            0 <= i <= children.len(),
            view == dom_view(*dom),
            children@ == view[id.value].children,
            seen@.finite(),
            start == old(seen)@,
            start.len() < seen@.len(),
            start.subset_of(seen@),
            file == subtree(view, id),
            view.contains_key(id.value),
            !start.contains(id.value),
            forall|k: int|
                0 <= k < i ==> intact(view, #[trigger] children@[k]) && apart(
                    subtree(view, children@[k]),
                    start.insert(id.value),
                ),
            forall|k: int, l: int, held: Ref|
                0 <= k < l < i && #[trigger] holds_id(subtree(view, children@[k]), held)
                    && #[trigger] holds_id(subtree(view, children@[l]), held) ==> false,
            forall|other: Ref| #[trigger]
                seen@.contains(other.value) <==> start.contains(other.value) || other == id
                    || exists|k: int|
                    0 <= k < i && holds_id(#[trigger] subtree(view, children@[k]), other),
        decreases children.len() - i,
    {
        let child = children[i];
        let ghost before = seen@;
        proof {
            lemma_numbers_are_bounded(before);
        }
        let fine = visit(dom, child, seen);
        if !fine {
            proof {
                if intact(view, id) && apart(file, start) {
                    lemma_child_is_apart(view, id, start, before, i as int);
                }
            }
            return false;
        }
        proof {
            let own = subtree(view, child);
            vstd::set_lib::lemma_len_subset(before, seen@);
            assert(children@[i as int] == child);
            assert forall|k: int, held: Ref|
                0 <= k < i && #[trigger] holds_id(subtree(view, children@[k]), held) implies
                !holds_id(own, held) by {
                assert(before.contains(held.value));
            }
            assert(apart(own, start.insert(id.value))) by {
                assert forall|held: Ref| #[trigger] holds_id(own, held) implies !start.insert(
                    id.value,
                ).contains(held.value) by {
                    assert(before.contains(id.value));
                }
            }
            assert forall|other: Ref| #[trigger]
                seen@.contains(other.value) <==> start.contains(other.value) || other == id
                    || exists|k: int|
                    0 <= k < i + 1 && holds_id(#[trigger] subtree(view, children@[k]), other) by {
                if holds_id(own, other) {
                    assert(holds_id(subtree(view, children@[i as int]), other));
                }
                if before.contains(other.value) && !start.contains(other.value) && other != id {
                    let k = choose|k: int|
                        0 <= k < i && holds_id(#[trigger] subtree(view, children@[k]), other);
                    assert(holds_id(subtree(view, children@[k]), other));
                }
            }
        }
        i = i + 1;
    }
    proof {
        lemma_children_are_apart(view, id, start);
    }
    true
}

/// Tells whether the instance `id` of a file and all of its descendants are
/// there, each in one place.
pub fn is_intact(dom: &WeakDom, id: Ref) -> (res: bool)
    ensures
        res == intact(dom_view(*dom), id),
{
    let mut seen: HashSet<u128> = HashSet::new();
    visit(dom, id, &mut seen)
}

/// Reads the instance `id` of a file and its descendants as
/// [`snapshot_from_dom`] does, unless one of them is missing or found in two
/// places.
pub fn try_snapshot_from_dom(
    dom: WeakDom,
    id: Ref,
    mesh_sources: &HashMap<u128, String>,
) -> (res: Option<Snapshot>)
    ensures
        res is Some <==> intact(dom_view(dom), id),
        res matches Some(snapshot) ==> snapshot@ == detached(
            subtree(dom_view(dom), id),
            collected(subtree(dom_view(dom), id), Seq::empty(), Map::empty()),
            mesh_sources@,
            0,
        ),
{
    if is_intact(&dom, id) {
        Some(snapshot_from_dom(dom, id, mesh_sources))
    } else {
        None
    }
}

/// A snapshot holds fewer generations below its top than instances.
proof fn lemma_height_is_counted(file: SnapshotView, ids: Set<u128>)
    requires
        distinct_ids(file),
        ids.finite(),
        forall|held: Ref| #[trigger] holds_id(file, held) ==> ids.contains(held.value),
    ensures
        height(file) < ids.len(),
    decreases file,
{
    assert(holds_id(file, file.id));
    assert(ids.remove(file.id.value).len() == ids.len() - 1);
    if file.children.len() > 0 {
        let i = lemma_highest_child(file.children);
        let child = file.children[i];
        assert(distinct_ids(file.children[i]));
        assert forall|held: Ref| #[trigger] holds_id(child, held) implies ids.remove(
            file.id.value,
        ).contains(held.value) by {
            assert(holds_id(file.children[i], held));
            assert(holds_id(file, held));
            assert(!holds_id(file.children[i], file.id));
        }
        lemma_height_is_counted(child, ids.remove(file.id.value));
    }
}

proof fn lemma_highest_child(snapshots: Seq<SnapshotView>) -> (i: int)
    requires
        snapshots.len() > 0,
    ensures
        0 <= i < snapshots.len(),
        height_of_all(snapshots) == 1 + height(snapshots[i]),
    decreases snapshots.len(),
{
    let init = snapshots.drop_last();
    if height_of_all(init) < 1 + height(snapshots.last()) {
        snapshots.len() - 1
    } else {
        lemma_highest_child(init)
    }
}

/// Every instance that is taken along is in the file.
proof fn lemma_ids_are_known(dom: Map<u128, FileInstanceView>, id: Ref, n: nat, held: Ref)
    requires
        complete(dom, id, n),
        holds_id(generations(dom, id, n), held),
    ensures
        dom.contains_key(held.value),
    decreases n,
{
    let file = generations(dom, id, n);
    if held != id {
        let i = choose|i: int|
            0 <= i < file.children.len() && holds_id(#[trigger] file.children[i], held);
        assert(complete(dom, dom[id.value].children[i], (n - 1) as nat));
        lemma_ids_are_known(dom, dom[id.value].children[i], (n - 1) as nat, held);
    }
}

/// Reads the instance `id` of a file and its descendants.
///
/// The referents of the file mean nothing outside of it, so they get swapped
/// for the path of whatever they point at and resolved again once the instance
/// is in the tree. References to instances that are not below `id` are dropped.
/// Where the mesh of each `MeshPart` was saved is given by the value of its
/// referent.
pub fn snapshot_from_dom(
    dom: WeakDom,
    id: Ref,
    mesh_sources: &HashMap<u128, String>,
) -> (res: Snapshot)
    requires
        intact(dom_view(dom), id),
    ensures
        res@ == detached(
            subtree(dom_view(dom), id),
            collected(subtree(dom_view(dom), id), Seq::empty(), Map::empty()),
            mesh_sources@,
            0,
        ),
{
    let ghost view = dom_view(dom);
    let ghost n = choose|n: nat| complete(view, id, n);
    proof {
        intact_names_are_collected(view, id);
    }
    let paths = ref_paths(&dom, id);
    let mut raw_dom = into_raw(dom);
    proof {
        assert forall|held: Ref| #[trigger] holds_id(subtree(view, id), held) implies
            view.dom().contains(held.value) by {
            lemma_ids_are_known(view, id, n, held);
        }
        lemma_height_is_counted(subtree(view, id), view.dom());
    }
    walk(id, &mut raw_dom, &paths, mesh_sources, 0, Ghost(view), Ghost(n))
}

} // verus!
