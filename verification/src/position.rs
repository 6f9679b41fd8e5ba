//! Where the instances of a snapshot end up in a tree, and how the paths
//! between them lead from one to the other.

use vstd::prelude::*;

use crate::growth::{distinct_ids, holds_id, keeps_ids, placed};
use crate::lineage::{hops_add_up, sole_child_is_entered};
use crate::model::{child_named, climbed, descended, entered, resolved, well_formed, TreeView};
use crate::property::target_of;
use crate::ref_path::PathView;
use crate::referent::Ref;
use crate::refs::{annotated, collected, collected_below, paths_inside};
use crate::snapshot::SnapshotView;

verus! {

/// `place` leads to an instance of the snapshot, by the index of a child at
/// every generation.
pub open spec fn is_place(snapshot: SnapshotView, place: Seq<int>) -> bool
    decreases place.len(),
{
    place.len() == 0 || (0 <= place[0] < snapshot.children.len() && is_place(
        snapshot.children[place[0]],
        place.skip(1),
    ))
}

/// What the snapshot holds at `place`.
pub open spec fn snapshot_at(snapshot: SnapshotView, place: Seq<int>) -> SnapshotView
    decreases place.len(),
{
    if place.len() == 0 {
        snapshot
    } else {
        snapshot_at(snapshot.children[place[0]], place.skip(1))
    }
}

/// The names on the way from the top of the snapshot to `place`.
pub open spec fn names_along(snapshot: SnapshotView, place: Seq<int>) -> Seq<Seq<char>>
    decreases place.len(),
{
    if place.len() == 0 {
        Seq::empty()
    } else {
        let child = snapshot.children[place[0]];
        seq![child.name] + names_along(child, place.skip(1))
    }
}

/// No instance on the way to `place` shares its name with a sibling.
pub open spec fn clear_place(snapshot: SnapshotView, place: Seq<int>) -> bool
    decreases place.len(),
{
    place.len() == 0 || {
        let child = snapshot.children[place[0]];
        &&& forall|i: int|
            0 <= i < snapshot.children.len() && (#[trigger] snapshot.children[i]).name
                == child.name ==> i == place[0]
        &&& clear_place(child, place.skip(1))
    }
}

/// The instance of the tree that `place` leads to from `at`.
pub open spec fn instance_at(tree: TreeView, at: Ref, place: Seq<int>) -> Ref
    decreases place.len(),
{
    if place.len() == 0 {
        at
    } else {
        instance_at(tree, tree.instances[at].children[place[0]], place.skip(1))
    }
}

/// Every place of a snapshot is in the tree that it was placed in, as many
/// hops below the top as the place is long, under the id it brought along.
pub proof fn places_are_kept(
    tree: TreeView,
    at: Ref,
    parent: Ref,
    snapshot: SnapshotView,
    place: Seq<int>,
)
    requires
        placed(tree, at, parent, snapshot),
        is_place(snapshot, place),
    ensures
        tree.instances.contains_key(instance_at(tree, at, place)),
        climbed(tree, instance_at(tree, at, place), place.len()) == Some(at),
        keeps_ids(tree, at, snapshot) ==> instance_at(tree, at, place) == snapshot_at(
            snapshot,
            place,
        ).id,
    decreases place.len(),
{
    if place.len() > 0 {
        let child = snapshot.children[place[0]];
        let below = tree.instances[at].children[place[0]];
        let rest = place.skip(1);
        assert(placed(tree, below, at, child));
        places_are_kept(tree, below, at, child, rest);
        let end = instance_at(tree, at, place);
        hops_add_up(tree, end, rest.len(), 1);
        assert(climbed(tree, below, 0) == Some(below));
        assert(climbed(tree, below, 1) == Some(at)) by {
            reveal_with_fuel(climbed, 2);
        }
        assert(rest.len() + 1 == place.len());
        if keeps_ids(tree, at, snapshot) {
            assert(keeps_ids(tree, below, child));
        }
    }
}

proof fn lemma_descend_from_front(
    tree: TreeView,
    at: Ref,
    name: Seq<char>,
    child: Ref,
    rest: Seq<Seq<char>>,
)
    requires
        entered(tree, at, name) == Some(child),
    ensures
        descended(tree, at, seq![name] + rest) == descended(tree, child, rest),
    decreases rest.len(),
{
    let all = seq![name] + rest;
    if rest.len() == 0 {
        assert(all.drop_last() =~= Seq::empty());
        assert(descended(tree, at, all.drop_last()) == Some(at));
    } else {
        lemma_descend_from_front(tree, at, name, child, rest.drop_last());
        assert(all.drop_last() =~= seq![name] + rest.drop_last());
        assert(all.last() == rest.last());
    }
}

/// The names on the way to a place lead there from the top, as long as none of
/// them is shared by siblings.
pub proof fn names_lead_to_place(
    tree: TreeView,
    at: Ref,
    parent: Ref,
    snapshot: SnapshotView,
    place: Seq<int>,
)
    requires
        well_formed(tree),
        placed(tree, at, parent, snapshot),
        is_place(snapshot, place),
        clear_place(snapshot, place),
    ensures
        descended(tree, at, names_along(snapshot, place)) == Some(instance_at(tree, at, place)),
    decreases place.len(),
{
    if place.len() > 0 {
        let child = snapshot.children[place[0]];
        let kids = tree.instances[at].children;
        let below = kids[place[0]];
        let rest = place.skip(1);
        assert(placed(tree, below, at, child));
        names_lead_to_place(tree, below, at, child, rest);
        assert(kids.contains(below));
        assert(child_named(tree, at, child.name, below));
        assert forall|other: Ref| #[trigger]
            child_named(tree, at, child.name, other) implies other == below by {
            let k = choose|k: int| 0 <= k < kids.len() && kids[k] == other;
            assert(placed(tree, kids[k], at, snapshot.children[k]));
        }
        sole_child_is_entered(tree, at, child.name, below);
        lemma_descend_from_front(tree, at, child.name, below, names_along(child, rest));
    }
}

/// Hopping up to the top of a snapshot and following names down from there
/// leads from one place of the snapshot to another, in any tree that the
/// snapshot was placed in.
pub proof fn path_leads_between_places(
    tree: TreeView,
    at: Ref,
    parent: Ref,
    snapshot: SnapshotView,
    from: Seq<int>,
    to: Seq<int>,
)
    requires
        well_formed(tree),
        placed(tree, at, parent, snapshot),
        is_place(snapshot, from),
        is_place(snapshot, to),
        clear_place(snapshot, to),
    ensures
        resolved(
            tree,
            PathView::Relative { up: from.len(), down: names_along(snapshot, to) },
            instance_at(tree, at, from),
        ) == Some(instance_at(tree, at, to)),
{
    places_are_kept(tree, at, parent, snapshot, from);
    names_lead_to_place(tree, at, parent, snapshot, to);
}

/// Nothing is collected for an instance that is not part of the snapshot.
pub proof fn only_parts_are_collected(
    snapshot: SnapshotView,
    path: Seq<Seq<char>>,
    paths: Map<u128, Seq<Seq<char>>>,
    id: Ref,
)
    requires
        !holds_id(snapshot, id),
    ensures
        collected(snapshot, path, paths).contains_key(id.value) == paths.contains_key(id.value),
        collected(snapshot, path, paths)[id.value] == paths[id.value],
    decreases snapshot, 0nat,
{
    assert(snapshot.id != id);
    assert forall|i: int| 0 <= i < snapshot.children.len() implies !holds_id(
        #[trigger] snapshot.children[i],
        id,
    ) by {}
    lemma_collected_below_elsewhere(snapshot.children, path, paths, id);
}

proof fn lemma_collected_below_elsewhere(
    snapshots: Seq<SnapshotView>,
    path: Seq<Seq<char>>,
    paths: Map<u128, Seq<Seq<char>>>,
    id: Ref,
)
    requires
        forall|i: int| 0 <= i < snapshots.len() ==> !holds_id(#[trigger] snapshots[i], id),
    ensures
        collected_below(snapshots, path, paths).contains_key(id.value) == paths.contains_key(
            id.value,
        ),
        collected_below(snapshots, path, paths)[id.value] == paths[id.value],
    decreases snapshots, snapshots.len(),
{
    if snapshots.len() > 0 {
        let init = snapshots.drop_last();
        let last = snapshots.last();
        assert forall|i: int| 0 <= i < init.len() implies !holds_id(#[trigger] init[i], id) by {
            assert(snapshots[i] == init[i]);
        }
        lemma_collected_below_elsewhere(init, path, paths, id);
        assert(!holds_id(snapshots[snapshots.len() - 1], id));
        only_parts_are_collected(
            last,
            path.push(last.name),
            collected_below(init, path, paths),
            id,
        );
    }
}

proof fn lemma_place_holds_id(snapshot: SnapshotView, place: Seq<int>)
    requires
        is_place(snapshot, place),
    ensures
        holds_id(snapshot, snapshot_at(snapshot, place).id),
    decreases place.len(),
{
    if place.len() > 0 {
        lemma_place_holds_id(snapshot.children[place[0]], place.skip(1));
    }
}

/// The names collected for an instance of a snapshot are those on the way to
/// its place, as long as no two instances share an id.
pub proof fn collected_names_lead_to_place(
    snapshot: SnapshotView,
    path: Seq<Seq<char>>,
    paths: Map<u128, Seq<Seq<char>>>,
    place: Seq<int>,
)
    requires
        distinct_ids(snapshot),
        is_place(snapshot, place),
    ensures
        collected(snapshot, path, paths).contains_key(snapshot_at(snapshot, place).id.value),
        collected(snapshot, path, paths)[snapshot_at(snapshot, place).id.value] == path
            + names_along(snapshot, place),
    decreases snapshot, 0nat,
{
    if place.len() == 0 {
        assert(path + names_along(snapshot, place) =~= path);
    } else {
        let id = snapshot_at(snapshot, place).id;
        let child = snapshot.children[place[0]];
        lemma_place_holds_id(child, place.skip(1));
        lemma_collected_below_place(snapshot.children, path, paths, place);
        assert(!holds_id(snapshot.children[place[0]], snapshot.id));
        assert(id != snapshot.id);
        assert(path.push(child.name) + names_along(child, place.skip(1)) =~= path + names_along(
            snapshot,
            place,
        ));
    }
}

proof fn lemma_collected_below_place(
    snapshots: Seq<SnapshotView>,
    path: Seq<Seq<char>>,
    paths: Map<u128, Seq<Seq<char>>>,
    place: Seq<int>,
)
    requires
        place.len() > 0,
        0 <= place[0] < snapshots.len(),
        is_place(snapshots[place[0]], place.skip(1)),
        crate::growth::distinct_among(snapshots),
    ensures
        ({
            let child = snapshots[place[0]];
            let id = snapshot_at(child, place.skip(1)).id;
            let found = collected_below(snapshots, path, paths);
            &&& found.contains_key(id.value)
            &&& found[id.value] == path.push(child.name) + names_along(child, place.skip(1))
        }),
    decreases snapshots, snapshots.len(),
{
    let k = place[0];
    let child = snapshots[k];
    let rest = place.skip(1);
    let id = snapshot_at(child, rest).id;
    let init = snapshots.drop_last();
    let last = snapshots.last();
    let before = collected_below(init, path, paths);
    lemma_place_holds_id(child, rest);
    if k == snapshots.len() - 1 {
        assert(distinct_ids(snapshots[k]));
        collected_names_lead_to_place(last, path.push(last.name), before, rest);
    } else {
        assert(crate::growth::distinct_among(init)) by {
            assert forall|i: int| 0 <= i < init.len() implies distinct_ids(#[trigger] init[i]) by {
                assert(distinct_ids(snapshots[i]));
            }
            assert forall|i: int, j: int, any: Ref|
                0 <= i < j < init.len() && #[trigger] holds_id(init[i], any)
                    && #[trigger] holds_id(init[j], any) implies false by {
                assert(holds_id(snapshots[i], any));
                assert(holds_id(snapshots[j], any));
            }
        }
        assert(init[k] == child);
        lemma_collected_below_place(init, path, paths, place);
        assert(holds_id(snapshots[k], id));
        if holds_id(last, id) {
            assert(holds_id(snapshots[snapshots.len() - 1], id));
        }
        only_parts_are_collected(last, path.push(last.name), before, id);
    }
}

proof fn lemma_annotated_at(
    snapshot: SnapshotView,
    tree: TreeView,
    paths: Map<u128, Seq<Seq<char>>>,
    depth: nat,
    place: Seq<int>,
)
    requires
        is_place(snapshot, place),
    ensures
        ({
            let there = snapshot_at(snapshot, place);
            snapshot_at(annotated(snapshot, tree, paths, depth), place) == annotated(
                there,
                tree,
                paths,
                depth + place.len(),
            )
        }),
    decreases place.len(),
{
    if place.len() > 0 {
        let child = snapshot.children[place[0]];
        lemma_annotated_at(child, tree, paths, depth + 1, place.skip(1));
        assert(annotated(snapshot, tree, paths, depth).children[place[0]] == annotated(
            child,
            tree,
            paths,
            depth + 1,
        ));
        assert(depth + 1 + place.skip(1).len() == depth + place.len());
    }
}

/// A reference from one instance of a snapshot to another is described by the
/// snapshot alone, and leads to its target in whatever tree the snapshot is
/// placed in with its own ids. The ids have to be distinct, no instance on the
/// way to the target may share its name with a sibling, and the tree that the
/// snapshot is described against must not know the target by an id it gave
/// itself.
pub proof fn reference_inside_snapshot_leads_to_target(
    snapshot: SnapshotView,
    known: TreeView,
    tree: TreeView,
    parent: Ref,
    from: Seq<int>,
    to: Seq<int>,
    name: Seq<char>,
)
    requires
        distinct_ids(snapshot),
        is_place(snapshot, from),
        is_place(snapshot, to),
        clear_place(snapshot, to),
        target_of(snapshot_at(snapshot, from).properties, name) == Some(
            snapshot_at(snapshot, to).id,
        ),
        !known.metas.contains_key(snapshot_at(snapshot, to).id)
            || known.metas[snapshot_at(snapshot, to).id].id is None,
        well_formed(tree),
        placed(
            tree,
            snapshot.id,
            parent,
            annotated(snapshot, known, collected(snapshot, Seq::empty(), Map::empty()), 0),
        ),
        keeps_ids(
            tree,
            snapshot.id,
            annotated(snapshot, known, collected(snapshot, Seq::empty(), Map::empty()), 0),
        ),
    ensures
        ({
            let path = PathView::Relative { up: from.len(), down: names_along(snapshot, to) };
            let holder = snapshot_at(snapshot, from).id;
            let target = snapshot_at(snapshot, to).id;
            &&& tree.metas[holder].refs.contains_key(name)
            &&& tree.metas[holder].refs[name] == path
            &&& resolved(tree, path, holder) == Some(target)
        }),
{
    let paths = collected(snapshot, Seq::empty(), Map::empty());
    let marked = annotated(snapshot, known, paths, 0);
    lemma_marks_keep_places(snapshot, known, paths, 0, from);
    lemma_marks_keep_places(snapshot, known, paths, 0, to);
    lemma_annotated_at(snapshot, known, paths, 0, from);
    lemma_annotated_at(snapshot, known, paths, 0, to);
    collected_names_lead_to_place(snapshot, Seq::empty(), Map::empty(), to);
    assert(Seq::<Seq<char>>::empty() + names_along(snapshot, to) =~= names_along(snapshot, to));
    places_are_kept(tree, snapshot.id, parent, marked, from);
    places_are_kept(tree, snapshot.id, parent, marked, to);
    path_leads_between_places(tree, snapshot.id, parent, marked, from, to);
    place_keeps_meta(tree, snapshot.id, parent, marked, from);
    let there = snapshot_at(snapshot, from);
    assert(paths_inside(there, known, paths, from.len()).contains_key(name));
}

proof fn lemma_marks_keep_places(
    snapshot: SnapshotView,
    tree: TreeView,
    paths: Map<u128, Seq<Seq<char>>>,
    depth: nat,
    place: Seq<int>,
)
    requires
        is_place(snapshot, place),
    ensures
        is_place(annotated(snapshot, tree, paths, depth), place),
        names_along(annotated(snapshot, tree, paths, depth), place) == names_along(
            snapshot,
            place,
        ),
        clear_place(snapshot, place) ==> clear_place(
            annotated(snapshot, tree, paths, depth),
            place,
        ),
    decreases place.len(),
{
    if place.len() > 0 {
        let child = snapshot.children[place[0]];
        let marked = annotated(snapshot, tree, paths, depth);
        lemma_marks_keep_places(child, tree, paths, depth + 1, place.skip(1));
        assert(marked.children[place[0]] == annotated(child, tree, paths, depth + 1));
        if clear_place(snapshot, place) {
            assert forall|i: int|
                0 <= i < marked.children.len() && (#[trigger] marked.children[i]).name
                    == marked.children[place[0]].name implies i == place[0] by {
                assert(marked.children[i] == annotated(
                    snapshot.children[i],
                    tree,
                    paths,
                    depth + 1,
                ));
                assert(snapshot.children[i].name == child.name);
            }
        }
    }
}

/// What a snapshot says of a place is known of the instance that is there.
pub proof fn place_keeps_meta(
    tree: TreeView,
    at: Ref,
    parent: Ref,
    snapshot: SnapshotView,
    place: Seq<int>,
)
    requires
        placed(tree, at, parent, snapshot),
        is_place(snapshot, place),
    ensures
        tree.metas[instance_at(tree, at, place)] == snapshot_at(snapshot, place).meta,
    decreases place.len(),
{
    if place.len() > 0 {
        let child = snapshot.children[place[0]];
        let below = tree.instances[at].children[place[0]];
        assert(placed(tree, below, at, child));
        place_keeps_meta(tree, below, at, child, place.skip(1));
    }
}

} // verus!
