//! Pointing instances at each other by path.

use vstd::prelude::*;

use crate::link_laws::updates_are_complete;
use crate::location::{get_location, insert_location, locations_view, no_locations, Locations};
use crate::model::{described, holders, resolved, well_formed, InstanceView, TreeView};
use crate::property::{
    all_entries_listed, among_first, extend_paths, get_path, insert_path, insert_property,
    lists_paths, lists_targets, no_paths, no_properties, one_more_entry, path_entries, paths_view,
    properties_view, property_target, property_targets, remove_property, target_in, target_of,
    Properties, RefPaths, Value, ValueView,
};
use crate::ref_path::{shown, PathView, RefPath};
use crate::referent::Ref;
use crate::shape::{holders_hold_paths, paths_follow_shape, same_shape};
use crate::snapshot::{
    snapshot_shows_children, snapshots_of, MetaView, Snapshot, SnapshotView, UpdatedSnapshot,
};
use crate::text::{copy_names, names_of};
use crate::tree::Tree;

verus! {

/// The properties with every reference swapped for the text of its path.
/// References with no known path are left out.
pub open spec fn written(
    properties: Map<Seq<char>, ValueView>,
    refs: Map<Seq<char>, PathView>,
) -> Map<Seq<char>, ValueView> {
    Map::new(
        |name: Seq<char>|
            properties.contains_key(name) && (target_in(properties[name]) is None
                || refs.contains_key(name)),
        |name: Seq<char>|
            if target_in(properties[name]) is None {
                properties[name]
            } else {
                ValueView::Text(shown(refs[name]))
            },
    )
}

/// Swaps every reference for the path of the instance it points at, so that it
/// survives being written to a file and read back later.
///
/// References with no known path are dropped, as a raw id would mean nothing
/// in another session.
pub fn to_paths(properties: Properties, refs: &RefPaths) -> (res: Properties)
    ensures
        properties_view(res) == written(properties_view(properties), paths_view(*refs)),
{
    let ghost given = properties_view(properties);
    let ghost known = paths_view(*refs);
    let ghost goal = written(given, known);
    let entries = property_targets(&properties);
    let mut res = properties;
    let mut i: usize = 0;
    while i < entries.len()
        invariant
            0 <= i <= entries.len(),
            known == paths_view(*refs),
            goal == written(given, known),
            lists_targets(entries@, given),
            forall|name: Seq<char>|
                #![trigger properties_view(res).contains_key(name)]
                #![trigger properties_view(res)[name]]
                if among_first(entries@, i as int, name) {
                    &&& properties_view(res).contains_key(name) == goal.contains_key(name)
                    &&& goal.contains_key(name) ==> properties_view(res)[name] == goal[name]
                } else {
                    &&& properties_view(res).contains_key(name) == given.contains_key(name)
                    &&& given.contains_key(name) ==> properties_view(res)[name] == given[name]
                },
        decreases entries.len() - i,
    {
        let name = entries[i].0.as_str();
        if entries[i].1.is_some() {
            match get_path(refs, name) {
                Some(path) => {
                    insert_property(&mut res, name, Value::Text(path.to_string()));
                },
                None => {
                    remove_property(&mut res, name);
                },
            }
        }
        proof {
            one_more_entry(entries@, i as int);
        }
        i = i + 1;
    }
    proof {
        all_entries_listed(entries@, given);
        assert(properties_view(res) =~= goal);
    }
    res
}

/// The paths of the references that the properties of `id` hold.
pub open spec fn paths_for(
    properties: Map<Seq<char>, ValueView>,
    tree: TreeView,
    id: Ref,
) -> Map<Seq<char>, PathView> {
    Map::new(
        |name: Seq<char>|
            target_of(properties, name) matches Some(target) && described(
                tree,
                id,
                target,
            ) is Some,
        |name: Seq<char>| described(tree, id, target_of(properties, name)->0)->0,
    )
}

/// Describes every reference the given properties hold as a path, for an
/// instance that is already part of the tree.
pub fn from_properties(properties: &Properties, tree: &Tree, id: Ref) -> (res: RefPaths)
    requires
        well_formed(tree@),
    ensures
        paths_view(res) == paths_for(properties_view(*properties), tree@, id),
{
    let ghost given = properties_view(*properties);
    let ghost goal = paths_for(given, tree@, id);
    let entries = property_targets(properties);
    let mut res = no_paths();
    let mut i: usize = 0;
    while i < entries.len()
        invariant
            0 <= i <= entries.len(),
            well_formed(tree@),
            goal == paths_for(given, tree@, id),
            lists_targets(entries@, given),
            forall|name: Seq<char>|
                #![trigger paths_view(res).contains_key(name)]
                #![trigger paths_view(res)[name]]
                {
                    &&& paths_view(res).contains_key(name) <==> goal.contains_key(name)
                        && among_first(entries@, i as int, name)
                    &&& paths_view(res).contains_key(name) ==> paths_view(res)[name] == goal[name]
                },
        decreases entries.len() - i,
    {
        let name = entries[i].0.as_str();
        assert(given.contains_key(entries@[i as int].0@));
        if let Some(target) = entries[i].1 {
            if let Some(path) = RefPath::between(tree, id, target) {
                insert_path(&mut res, name, path);
            }
        }
        proof {
            one_more_entry(entries@, i as int);
        }
        i = i + 1;
    }
    proof {
        all_entries_listed(entries@, given);
        assert(paths_view(res) =~= goal);
    }
    res
}

/// How many generations a snapshot holds below its top.
pub open spec fn height(snapshot: SnapshotView) -> nat
    decreases snapshot, 0nat,
{
    height_of_all(snapshot.children)
}

/// How many generations the snapshots of a list hold.
pub open spec fn height_of_all(snapshots: Seq<SnapshotView>) -> nat
    decreases snapshots, snapshots.len(),
{
    if snapshots.len() == 0 {
        0
    } else {
        let before = height_of_all(snapshots.drop_last());
        let last = 1 + height(snapshots.last());
        if before < last {
            last
        } else {
            before
        }
    }
}

/// A child holds fewer generations than its parent.
pub proof fn child_is_lower(snapshots: Seq<SnapshotView>, i: int)
    requires
        0 <= i < snapshots.len(),
    ensures
        height(snapshots[i]) < height_of_all(snapshots),
    decreases snapshots.len(),
{
    if i < snapshots.len() - 1 {
        child_is_lower(snapshots.drop_last(), i);
    }
}

/// The names that lead to every instance of a snapshot, on top of those that
/// are known already. `path` leads to the snapshot itself. Where several
/// instances share an id, the one that comes last in a walk that visits an
/// instance after its children is kept.
pub open spec fn collected(
    snapshot: SnapshotView,
    path: Seq<Seq<char>>,
    paths: Map<u128, Seq<Seq<char>>>,
) -> Map<u128, Seq<Seq<char>>>
    decreases snapshot, 0nat,
{
    collected_below(snapshot.children, path, paths).insert(snapshot.id.value, path)
}

/// The names that lead to every instance of the snapshots in a list, whose
/// parent `path` leads to.
pub open spec fn collected_below(
    snapshots: Seq<SnapshotView>,
    path: Seq<Seq<char>>,
    paths: Map<u128, Seq<Seq<char>>>,
) -> Map<u128, Seq<Seq<char>>>
    decreases snapshots, snapshots.len(),
{
    if snapshots.len() == 0 {
        paths
    } else {
        let last = snapshots.last();
        collected(last, path.push(last.name), collected_below(snapshots.drop_last(), path, paths))
    }
}

/// Records the names that lead to every instance of the snapshot.
fn collect(snapshot: &Snapshot, path: Vec<String>, paths: &mut Locations)
    ensures
        locations_view(*final(paths)) == collected(
            snapshot@,
            names_of(path@),
            locations_view(*old(paths)),
        ),
    decreases snapshot,
{
    broadcast use snapshot_shows_children;

    let ghost start = locations_view(*paths);
    let ghost views = snapshots_of(snapshot.children@);
    let mut i: usize = 0;
    assert(views.take(0) =~= Seq::empty());
    while i < snapshot.children.len()
        invariant
            0 <= i <= snapshot.children.len(),
            views == snapshots_of(snapshot.children@),
            locations_view(*paths) == collected_below(views.take(i as int), names_of(path@), start),
        decreases snapshot.children.len() - i,
    {
        let child = &snapshot.children[i];
        let mut child_path = copy_names(&path);
        child_path.push(child.name.clone());
        assert(names_of(child_path@) =~= names_of(path@).push(child@.name));
        assert(views.take(i + 1).drop_last() =~= views.take(i as int));
        assert(views.take(i + 1).last() == child@);
        collect(child, child_path, paths);
        i = i + 1;
    }
    assert(views.take(i as int) =~= views);
    insert_location(paths, snapshot.id.value, path);
}

/// How a reference from an instance of a snapshot is described: by the id of
/// the target if it has one, by the way through the snapshot if the target is
/// part of it, and by the way through the tree otherwise. `depth` is how deep
/// in the snapshot the instance lies.
pub open spec fn described_inside(
    tree: TreeView,
    paths: Map<u128, Seq<Seq<char>>>,
    depth: nat,
    from: Ref,
    target: Ref,
) -> Option<PathView> {
    if tree.metas.contains_key(target) && tree.metas[target].id is Some {
        Some(PathView::Id(tree.metas[target].id->0))
    } else if paths.contains_key(target.value) {
        Some(PathView::Relative { up: depth, down: paths[target.value] })
    } else {
        described(tree, from, target)
    }
}

/// The paths of the references that an instance of a snapshot holds.
pub open spec fn paths_inside(
    snapshot: SnapshotView,
    tree: TreeView,
    paths: Map<u128, Seq<Seq<char>>>,
    depth: nat,
) -> Map<Seq<char>, PathView> {
    Map::new(
        |name: Seq<char>|
            target_of(snapshot.properties, name) matches Some(target) && described_inside(
                tree,
                paths,
                depth,
                snapshot.id,
                target,
            ) is Some,
        |name: Seq<char>|
            described_inside(
                tree,
                paths,
                depth,
                snapshot.id,
                target_of(snapshot.properties, name)->0,
            )->0,
    )
}

/// A snapshot with the paths of its references, and of those its descendants
/// hold, on top of the paths that are known already.
pub open spec fn annotated(
    snapshot: SnapshotView,
    tree: TreeView,
    paths: Map<u128, Seq<Seq<char>>>,
    depth: nat,
) -> SnapshotView
    decreases snapshot,
{
    SnapshotView {
        meta: MetaView {
            refs: snapshot.meta.refs.union_prefer_right(
                paths_inside(snapshot, tree, paths, depth),
            ),
            ..snapshot.meta
        },
        children: Seq::new(
            snapshot.children.len(),
            |i: int|
                if 0 <= i < snapshot.children.len() {
                    annotated(snapshot.children[i], tree, paths, depth + 1)
                } else {
                    snapshot
                },
        ),
        ..snapshot
    }
}

/// Describes the references that one instance of a snapshot holds.
fn describe_inside(snapshot: &Snapshot, tree: &Tree, paths: &Locations, depth: usize) -> (res:
    RefPaths)
    requires
        well_formed(tree@),
    ensures
        paths_view(res) == paths_inside(snapshot@, tree@, locations_view(*paths), depth as nat),
{
    let ghost given = properties_view(snapshot.properties);
    let ghost goal = paths_inside(snapshot@, tree@, locations_view(*paths), depth as nat);
    let entries = property_targets(&snapshot.properties);
    let mut res = no_paths();
    let mut i: usize = 0;
    while i < entries.len()
        invariant
            0 <= i <= entries.len(),
            well_formed(tree@),
            given == snapshot@.properties,
            goal == paths_inside(snapshot@, tree@, locations_view(*paths), depth as nat),
            lists_targets(entries@, given),
            forall|name: Seq<char>|
                #![trigger paths_view(res).contains_key(name)]
                #![trigger paths_view(res)[name]]
                {
                    &&& paths_view(res).contains_key(name) <==> goal.contains_key(name)
                        && among_first(entries@, i as int, name)
                    &&& paths_view(res).contains_key(name) ==> paths_view(res)[name] == goal[name]
                },
        decreases entries.len() - i,
    {
        let name = entries[i].0.as_str();
        assert(given.contains_key(entries@[i as int].0@));
        if let Some(target) = entries[i].1 {
            let id: Option<&String> = match tree.get_meta(target) {
                Some(meta) => match &meta.id {
                    Some(id) => Some(id),
                    None => None,
                },
                None => None,
            };
            let path: Option<RefPath> = match id {
                Some(id) => Some(RefPath::Id(id.clone())),
                None => match get_location(paths, target.value) {
                    Some(down) => Some(RefPath::Relative { up: depth, down: copy_names(down) }),
                    None => RefPath::between(tree, snapshot.id, target),
                },
            };
            if let Some(path) = path {
                insert_path(&mut res, name, path);
            }
        }
        proof {
            one_more_entry(entries@, i as int);
        }
        i = i + 1;
    }
    proof {
        all_entries_listed(entries@, given);
        assert(paths_view(res) =~= goal);
    }
    res
}

fn annotate(snapshot: &mut Snapshot, tree: &Tree, paths: &Locations, depth: usize)
    requires
        well_formed(tree@),
        depth + height(old(snapshot)@) <= usize::MAX,
    ensures
        final(snapshot)@ == annotated(
            old(snapshot)@,
            tree@,
            locations_view(*paths),
            depth as nat,
        ),
    decreases height(old(snapshot)@),
{
    broadcast use snapshot_shows_children;

    let ghost said = snapshot@;
    let ghost goal = annotated(said, tree@, locations_view(*paths), depth as nat);
    let ghost views = snapshots_of(snapshot.children@);
    let refs = describe_inside(snapshot, tree, paths, depth);
    extend_paths(&mut snapshot.meta.refs, refs);
    let mut i: usize = 0;
    while i < snapshot.children.len()
        invariant
            0 <= i <= snapshot.children.len(),
            well_formed(tree@),
            depth + height_of_all(views) <= usize::MAX,
            height_of_all(views) == height(old(snapshot)@),
            snapshot.id == said.id,
            snapshot.meta@ == goal.meta,
            snapshot.name@ == said.name,
            snapshot.class@ == said.class,
            properties_view(snapshot.properties) == said.properties,
            snapshot.children.len() == views.len(),
            forall|k: int|
                0 <= k < i ==> (#[trigger] snapshots_of(snapshot.children@)[k]) == annotated(
                    views[k],
                    tree@,
                    locations_view(*paths),
                    (depth + 1) as nat,
                ),
            forall|k: int|
                i <= k < views.len() ==> #[trigger] snapshots_of(snapshot.children@)[k]
                    == views[k],
        decreases snapshot.children.len() - i,
    {
        proof {
            child_is_lower(views, i as int);
            assert(snapshots_of(snapshot.children@)[i as int] == views[i as int]);
        }
        let ghost before = snapshots_of(snapshot.children@);
        annotate(&mut snapshot.children[i], tree, paths, depth + 1);
        assert(forall|k: int|
            0 <= k < views.len() && k != i ==> #[trigger] snapshots_of(snapshot.children@)[k]
                == before[k]);
        i = i + 1;
    }
    proof {
        assert(snapshot@.children =~= goal.children);
    }
}

/// Describes every reference the snapshot and its descendants hold as a path,
/// using the snapshot itself for the ones that point inside of it and the tree
/// for the ones that point at an instance outside.
///
/// Instances added by the client all arrive at once, so the ones they point at
/// each other with are not part of the tree yet.
pub fn from_snapshot(snapshot: &mut Snapshot, tree: &Tree)
    requires
        well_formed(tree@),
        height(old(snapshot)@) <= usize::MAX,
    ensures
        final(snapshot)@ == annotated(
            old(snapshot)@,
            tree@,
            collected(old(snapshot)@, Seq::empty(), Map::empty()),
            0,
        ),
{
    let mut paths = no_locations();
    let top: Vec<String> = Vec::new();
    assert(names_of(top@) =~= Seq::empty());
    collect(snapshot, top, &mut paths);
    annotate(snapshot, tree, &paths, 0);
}

/// The properties that the paths known of an instance resolve to.
pub open spec fn linked(tree: TreeView, id: Ref) -> Map<Seq<char>, ValueView> {
    let refs = tree.metas[id].refs;
    Map::new(
        |name: Seq<char>|
            refs.contains_key(name) && resolved(tree, refs[name], id) is Some,
        |name: Seq<char>| ValueView::Reference(resolved(tree, refs[name], id)->0),
    )
}

/// The tree with every instance pointed at the instances that the paths known
/// of it describe. Paths that resolve to nothing change nothing.
pub open spec fn relinked(tree: TreeView) -> TreeView {
    TreeView {
        instances: tree.instances.map_entries(
            |id: Ref, instance: InstanceView|
                InstanceView {
                    properties: instance.properties.union_prefer_right(linked(tree, id)),
                    ..instance
                },
        ),
        ..tree
    }
}

/// A path known of the instance resolves to something that the instance does
/// not point at yet.
pub open spec fn stale(tree: TreeView, id: Ref) -> bool {
    exists|name: Seq<char>| #[trigger]
        linked(tree, id).contains_key(name) && target_of(tree.instances[id].properties, name)
            != target_in(linked(tree, id)[name])
}

/// The instances of a list that are stale, in order.
pub open spec fn stale_among(tree: TreeView, ids: Seq<Ref>) -> Seq<Ref>
    decreases ids.len(),
{
    if ids.len() == 0 {
        Seq::empty()
    } else {
        let before = stale_among(tree, ids.drop_last());
        if stale(tree, ids.last()) {
            before.push(ids.last())
        } else {
            before
        }
    }
}

/// The tree with only the instances in `done` pointed at what their paths
/// describe.
spec fn partly_relinked(tree: TreeView, done: Seq<Ref>) -> TreeView {
    TreeView {
        instances: tree.instances.map_entries(
            |id: Ref, instance: InstanceView|
                if done.contains(id) {
                    relinked(tree).instances[id]
                } else {
                    instance
                },
        ),
        ..tree
    }
}

/// The links of an instance that it does not point at yet.
spec fn missing_links(tree: TreeView, id: Ref) -> Map<Seq<char>, ValueView> {
    linked(tree, id).restrict(
        Set::new(
            |name: Seq<char>|
                linked(tree, id).contains_key(name) && target_of(
                    tree.instances[id].properties,
                    name,
                ) != target_in(linked(tree, id)[name]),
        ),
    )
}

spec fn path_among_first(entries: Seq<(String, &RefPath)>, n: int, name: Seq<char>) -> bool {
    exists|i: int| 0 <= i < n && (#[trigger] entries[i]).0@ == name
}

/// The links of an instance that it does not point at yet, if there is one.
fn links_to_add(tree: &Tree, id: Ref) -> (res: Option<Properties>)
    requires
        well_formed(tree@),
        tree@.instances.contains_key(id),
    ensures
        res is Some <==> stale(tree@, id),
        res matches Some(links) ==> properties_view(links) == missing_links(tree@, id),
{
    let ghost goal = missing_links(tree@, id);
    let (meta, instance) = match (tree.get_meta(id), tree.get_instance(id)) {
        (Some(meta), Some(instance)) => (meta, instance),
        _ => {
            return None;
        },
    };
    let entries = path_entries(&meta.refs);
    let mut links = no_properties();
    let mut any = false;
    let mut i: usize = 0;
    while i < entries.len()
        invariant
            0 <= i <= entries.len(),
            well_formed(tree@),
            tree@.instances.contains_key(id),
            instance@ == tree@.instances[id],
            lists_paths(entries@, tree@.metas[id].refs),
            goal == missing_links(tree@, id),
            any ==> stale(tree@, id),
            !any ==> forall|name: Seq<char>|
                path_among_first(entries@, i as int, name) ==> !#[trigger] goal.contains_key(name),
            forall|name: Seq<char>|
                #![trigger properties_view(links).contains_key(name)]
                #![trigger properties_view(links)[name]]
                {
                    &&& properties_view(links).contains_key(name) <==> goal.contains_key(name)
                        && path_among_first(entries@, i as int, name)
                    &&& properties_view(links).contains_key(name) ==> properties_view(links)[name]
                        == goal[name]
                },
        decreases entries.len() - i,
    {
        let name = entries[i].0.as_str();
        let path = entries[i].1;
        let ghost refs = tree@.metas[id].refs;
        proof {
            assert(refs.contains_key(entries@[i as int].0@));
            assert forall|other: Seq<char>| #[trigger]
                path_among_first(entries@, i + 1, other) <==> path_among_first(
                    entries@,
                    i as int,
                    other,
                ) || other == name@ by {
                if path_among_first(entries@, i + 1, other) {
                    let k = choose|k: int| 0 <= k < i + 1 && (#[trigger] entries@[k]).0@ == other;
                    assert(entries@[k].0@ == other);
                }
                if path_among_first(entries@, i as int, other) {
                    let k = choose|k: int| 0 <= k < i && (#[trigger] entries@[k]).0@ == other;
                    assert(entries@[k].0@ == other);
                }
                assert(entries@[i as int].0@ == name@);
            }
        }
        match path.resolve(tree, id) {
            Some(target) => {
                assert(linked(tree@, id).contains_key(name@));
                let current = property_target(&instance.properties, name);
                let same = match current {
                    Some(known) => known == target,
                    None => false,
                };
                if !same {
                    insert_property(&mut links, name, Value::Reference(target));
                    any = true;
                    assert(goal.contains_key(name@));
                } else {
                    assert(!goal.contains_key(name@));
                }
            },
            None => {
                assert(!linked(tree@, id).contains_key(name@));
            },
        }
        i = i + 1;
    }
    proof {
        assert forall|name: Seq<char>| goal.contains_key(name) implies path_among_first(
            entries@,
            i as int,
            name,
        ) by {
            assert(tree@.metas[id].refs.contains_key(name));
            let k = choose|k: int| 0 <= k < entries@.len() && (#[trigger] entries@[k]).0@ == name;
            assert(entries@[k].0@ == name);
        }
        assert(properties_view(links) =~= goal);
        if stale(tree@, id) {
            let name = choose|name: Seq<char>| #[trigger]
                linked(tree@, id).contains_key(name) && target_of(
                    tree@.instances[id].properties,
                    name,
                ) != target_in(linked(tree@, id)[name]);
            assert(goal.contains_key(name));
        }
    }
    if any {
        Some(links)
    } else {
        None
    }
}

/// Adding the missing links gives the instance all of its links.
proof fn lemma_missing_links_suffice(tree: TreeView, id: Ref)
    ensures
        tree.instances[id].properties.union_prefer_right(missing_links(tree, id))
            == tree.instances[id].properties.union_prefer_right(linked(tree, id)),
        !stale(tree, id) ==> tree.instances[id].properties.union_prefer_right(linked(tree, id))
            == tree.instances[id].properties,
{
    let properties = tree.instances[id].properties;
    let all = linked(tree, id);
    let missing = missing_links(tree, id);
    assert forall|name: Seq<char>| all.contains_key(name) && !missing.contains_key(name) implies
        properties.contains_key(name) && properties[name] == all[name] by {
        assert(target_of(properties, name) == target_in(all[name]));
    }
    assert(properties.union_prefer_right(missing) =~= properties.union_prefer_right(all));
    if !stale(tree, id) {
        assert forall|name: Seq<char>| all.contains_key(name) implies properties.contains_key(name)
            && properties[name] == all[name] by {
            assert(target_of(properties, name) == target_in(all[name]));
        }
        assert(properties.union_prefer_right(all) =~= properties);
    }
}

/// Linking depends on the shape of the tree and the properties of the one
/// instance alone.
proof fn lemma_same_links(one: TreeView, other: TreeView, id: Ref)
    requires
        same_shape(one, other),
    ensures
        linked(one, id) == linked(other, id),
        one.instances[id] == other.instances[id] ==> stale(one, id) == stale(other, id)
            && missing_links(one, id) == missing_links(other, id),
{
    let refs = one.metas[id].refs;
    assert forall|name: Seq<char>| refs.contains_key(name) implies resolved(one, refs[name], id)
        == resolved(other, refs[name], id) by {
        paths_follow_shape(one, other, refs[name], id);
    }
    assert(linked(one, id) =~= linked(other, id));
}

/// Points every instance that holds a path at the instance that path
/// describes, returning the updates that have to be sent to the client for the
/// ones whose target changed.
///
/// This runs after the tree has been built, as the instance a path points at
/// is often read from a completely different file than the one that holds the
/// reference, and might not exist yet at the time the reference itself is
/// read.
pub fn resolve_all(tree: &mut Tree) -> (updates: Vec<UpdatedSnapshot>)
    requires
        well_formed(old(tree)@),
    ensures
        well_formed(final(tree)@),
        final(tree)@ == relinked(old(tree)@),
        updates.len() == stale_among(old(tree)@, holders(old(tree)@)).len(),
        forall|i: int|
            0 <= i < updates.len() ==> {
                &&& (#[trigger] updates[i]).id == stale_among(old(tree)@, holders(old(tree)@))[i]
                &&& updates[i].properties matches Some(properties) && properties_view(properties)
                    == final(tree)@.instances[updates[i].id].properties
            },
        forall|i: int, k: int|
            0 <= i < k < updates.len() ==> (#[trigger] updates[i]).id != (
            #[trigger] updates[k]).id,
        forall|id: Ref| #[trigger]
            old(tree)@.instances.contains_key(id) ==> (final(tree)@.instances[id].properties
                != old(tree)@.instances[id].properties <==> exists|i: int|
                0 <= i < updates.len() && (#[trigger] updates[i]).id == id),
{
    let ghost start = tree@;
    let ids = tree.ids_with_refs();
    let mut updates: Vec<UpdatedSnapshot> = Vec::new();
    proof {
        holders_hold_paths(start.order, start.metas);
        assert(partly_relinked(start, ids@.take(0)).instances =~= start.instances);
        assert(ids@.take(0) =~= Seq::empty());
    }
    let mut i: usize = 0;
    while i < ids.len()
        invariant
            0 <= i <= ids.len(),
            well_formed(start),
            well_formed(tree@),
            ids@ == holders(start),
            ids@.no_duplicates(),
            forall|id: Ref| #[trigger] ids@.contains(id) ==> start.order.contains(id),
            tree@ == partly_relinked(start, ids@.take(i as int)),
            updates.len() == stale_among(start, ids@.take(i as int)).len(),
            forall|k: int|
                0 <= k < updates.len() ==> {
                    &&& (#[trigger] updates[k]).id == stale_among(start, ids@.take(i as int))[k]
                    &&& updates[k].properties matches Some(properties) && properties_view(
                        properties,
                    ) == relinked(start).instances[updates[k].id].properties
                },
        decreases ids.len() - i,
    {
        let id = ids[i];
        let ghost before = tree@;
        let ghost done = ids@.take(i as int);
        let ghost next = ids@.take(i + 1);
        proof {
            assert(ids@.contains(id));
            assert(start.instances.contains_key(id));
            assert(!done.contains(id));
            assert(same_shape(before, start));
            lemma_same_links(before, start, id);
            lemma_missing_links_suffice(start, id);
            assert(next.drop_last() =~= done);
            assert(next =~= done.push(id));
            assert forall|other: Ref| #[trigger] next.contains(other) <==> done.contains(other)
                || other == id by {
                if next.contains(other) {
                    let k = choose|k: int| 0 <= k < next.len() && next[k] == other;
                    if k < done.len() {
                        assert(done[k] == other);
                    }
                }
                if done.contains(other) {
                    let k = choose|k: int| 0 <= k < done.len() && done[k] == other;
                    assert(next[k] == other);
                }
                assert(next[done.len() as int] == id);
            }
        }
        match links_to_add(tree, id) {
            Some(links) => {
                let all = tree.extend_instance(id, links);
                let mut update = UpdatedSnapshot::new(id);
                update.properties = all;
                updates.push(update);
                assert(tree@.instances =~= partly_relinked(start, next).instances);
            },
            None => {
                assert(tree@.instances =~= partly_relinked(start, next).instances);
            },
        }
        i = i + 1;
    }
    proof {
        assert(ids@.take(i as int) =~= ids@);
        assert forall|id: Ref| start.instances.contains_key(id) && !ids@.contains(id) implies
            relinked(start).instances[id] == start.instances[id] by {
            assert(start.order.contains(id));
            assert(start.metas[id].refs.dom() == Set::<Seq<char>>::empty());
            assert forall|name: Seq<char>| !linked(start, id).contains_key(name) by {
                assert(!start.metas[id].refs.dom().contains(name));
            }
            assert(start.instances[id].properties.union_prefer_right(linked(start, id))
                =~= start.instances[id].properties);
        }
        assert(tree@.instances =~= relinked(start).instances);
        let told = stale_among(start, ids@);
        updates_are_complete(start);
        assert forall|id: Ref| #[trigger] start.instances.contains_key(id) implies (
        tree@.instances[id].properties != start.instances[id].properties <==> exists|k: int|
            0 <= k < updates.len() && (#[trigger] updates[k]).id == id) by {
            assert(told.contains(id) <==> tree@.instances[id].properties
                != start.instances[id].properties);
            if told.contains(id) {
                let k = choose|k: int| 0 <= k < told.len() && told[k] == id;
                assert(updates[k].id == id);
            }
        }
    }
    updates
}

} // verus!
