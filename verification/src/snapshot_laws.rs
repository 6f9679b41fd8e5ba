//! What is added to a snapshot when its references are described.

use vstd::prelude::*;

use crate::growth::holds_id;
use crate::model::{described, TreeView};
use crate::position::{is_place, names_along, only_parts_are_collected, snapshot_at};
use crate::property::{paths_view, ValueView};
use crate::ref_path::PathView;
use crate::referent::Ref;
use crate::refs::{annotated, child_is_lower, collected, collected_below, height, height_of_all};
use crate::snapshot::{blank_meta, text_of, Meta, SnapshotView};

verus! {

/// A walk that visits children in order, and an instance after its children,
/// comes to `one` after it came to `other`.
pub open spec fn visited_later(one: Seq<int>, other: Seq<int>) -> bool
    decreases one.len(),
{
    if one.len() == 0 {
        other.len() > 0
    } else if other.len() == 0 {
        false
    } else {
        one[0] > other[0] || (one[0] == other[0] && visited_later(one.skip(1), other.skip(1)))
    }
}

/// `place` is where the walk last comes to an instance that goes by `id`.
pub open spec fn last_place(snapshot: SnapshotView, id: Ref, place: Seq<int>) -> bool {
    &&& is_place(snapshot, place)
    &&& snapshot_at(snapshot, place).id == id
    &&& forall|other: Seq<int>| #[trigger]
        is_place(snapshot, other) && snapshot_at(snapshot, other).id == id ==> !visited_later(
            other,
            place,
        )
}

proof fn lemma_child_place(snapshot: SnapshotView, i: int, place: Seq<int>)
    requires
        0 <= i < snapshot.children.len(),
        is_place(snapshot.children[i], place),
    ensures
        is_place(snapshot, seq![i] + place),
        snapshot_at(snapshot, seq![i] + place) == snapshot_at(snapshot.children[i], place),
{
    assert((seq![i] + place).skip(1) =~= place);
}

proof fn lemma_held_somewhere(snapshot: SnapshotView, id: Ref) -> (place: Seq<int>)
    requires
        holds_id(snapshot, id),
    ensures
        is_place(snapshot, place),
        snapshot_at(snapshot, place).id == id,
    decreases snapshot,
{
    if snapshot.id == id {
        Seq::empty()
    } else {
        let i = choose|i: int|
            0 <= i < snapshot.children.len() && holds_id(#[trigger] snapshot.children[i], id);
        let rest = lemma_held_somewhere(snapshot.children[i], id);
        lemma_child_place(snapshot, i, rest);
        seq![i] + rest
    }
}

proof fn lemma_place_is_held(snapshot: SnapshotView, place: Seq<int>)
    requires
        is_place(snapshot, place),
    ensures
        holds_id(snapshot, snapshot_at(snapshot, place).id),
    decreases place.len(),
{
    if place.len() > 0 {
        lemma_place_is_held(snapshot.children[place[0]], place.skip(1));
    }
}

/// Every id that a snapshot holds has a last place.
pub proof fn held_id_has_last_place(snapshot: SnapshotView, id: Ref) -> (place: Seq<int>)
    requires
        holds_id(snapshot, id),
    ensures
        last_place(snapshot, id, place),
    decreases snapshot,
{
    if snapshot.id == id {
        Seq::empty()
    } else {
        let some = choose|i: int|
            0 <= i < snapshot.children.len() && holds_id(#[trigger] snapshot.children[i], id);
        let i = lemma_last_child(snapshot.children, id, snapshot.children.len() as int);
        let rest = held_id_has_last_place(snapshot.children[i], id);
        let place = seq![i] + rest;
        lemma_child_place(snapshot, i, rest);
        assert(place.skip(1) =~= rest);
        assert forall|other: Seq<int>| #[trigger]
            is_place(snapshot, other) && snapshot_at(snapshot, other).id
                == id implies !visited_later(other, place) by {
            if other.len() > 0 {
                lemma_place_is_held(snapshot.children[other[0]], other.skip(1));
                assert(holds_id(snapshot.children[other[0]], id));
                assert(other[0] <= i);
                if other[0] == i {
                    assert(is_place(snapshot.children[i], other.skip(1)));
                }
            }
        }
        place
    }
}

proof fn lemma_last_child(children: Seq<SnapshotView>, id: Ref, n: int) -> (i: int)
    requires
        0 <= n <= children.len(),
        exists|i: int| 0 <= i < n && holds_id(#[trigger] children[i], id),
        forall|i: int| n <= i < children.len() ==> !holds_id(#[trigger] children[i], id),
    ensures
        0 <= i < children.len(),
        holds_id(children[i], id),
        forall|k: int| i < k < children.len() ==> !holds_id(#[trigger] children[k], id),
    decreases n,
{
    if holds_id(children[n - 1], id) {
        n - 1
    } else {
        lemma_last_child(children, id, n - 1)
    }
}

/// The names collected for an id are those on the way to its last place.
pub proof fn last_place_is_collected(
    snapshot: SnapshotView,
    path: Seq<Seq<char>>,
    paths: Map<u128, Seq<Seq<char>>>,
    id: Ref,
    place: Seq<int>,
)
    requires
        last_place(snapshot, id, place),
    ensures
        collected(snapshot, path, paths).contains_key(id.value),
        collected(snapshot, path, paths)[id.value] == path + names_along(snapshot, place),
    decreases snapshot, 0nat,
{
    if place.len() == 0 {
        assert(path + names_along(snapshot, place) =~= path);
    } else {
        let top = Seq::<int>::empty();
        assert(is_place(snapshot, top));
        assert(snapshot_at(snapshot, top) == snapshot);
        assert(visited_later(top, place));
        assert(snapshot.id != id);
        let child = snapshot.children[place[0]];
        assert forall|i: int, other: Seq<int>|
            0 <= i < snapshot.children.len() && #[trigger] is_place(snapshot.children[i], other)
                && snapshot_at(snapshot.children[i], other).id == id implies !visited_later(
            seq![i] + other,
            place,
        ) by {
            lemma_child_place(snapshot, i, other);
        }
        lemma_last_place_below(snapshot.children, path, paths, id, place);
        assert(path.push(child.name) + names_along(child, place.skip(1)) =~= path + names_along(
            snapshot,
            place,
        ));
    }
}

proof fn lemma_last_place_below(
    snapshots: Seq<SnapshotView>,
    path: Seq<Seq<char>>,
    paths: Map<u128, Seq<Seq<char>>>,
    id: Ref,
    place: Seq<int>,
)
    requires
        place.len() > 0,
        0 <= place[0] < snapshots.len(),
        is_place(snapshots[place[0]], place.skip(1)),
        snapshot_at(snapshots[place[0]], place.skip(1)).id == id,
        forall|i: int, other: Seq<int>|
            0 <= i < snapshots.len() && #[trigger] is_place(snapshots[i], other) && snapshot_at(
                snapshots[i],
                other,
            ).id == id ==> !visited_later(seq![i] + other, place),
    ensures
        collected_below(snapshots, path, paths).contains_key(id.value),
        collected_below(snapshots, path, paths)[id.value] == path.push(snapshots[place[0]].name)
            + names_along(snapshots[place[0]], place.skip(1)),
    decreases snapshots, snapshots.len(),
{
    let end = snapshots.len() - 1;
    let init = snapshots.drop_last();
    let last = snapshots.last();
    let rest = place.skip(1);
    let before = collected_below(init, path, paths);
    if place[0] == end {
        assert forall|other: Seq<int>| #[trigger]
            is_place(last, other) && snapshot_at(last, other).id == id implies !visited_later(
            other,
            rest,
        ) by {
            assert(is_place(snapshots[end], other));
            assert((seq![end] + other).skip(1) =~= other);
        }
        last_place_is_collected(last, path.push(last.name), before, id, rest);
    } else {
        if holds_id(last, id) {
            let other = lemma_held_somewhere(last, id);
            assert(is_place(snapshots[end], other));
            assert(visited_later(seq![end] + other, place));
        }
        assert forall|i: int, other: Seq<int>|
            0 <= i < init.len() && #[trigger] is_place(init[i], other) && snapshot_at(
                init[i],
                other,
            ).id == id implies !visited_later(seq![i] + other, place) by {
            assert(is_place(snapshots[i], other));
        }
        assert(init[place[0]] == snapshots[place[0]]);
        lemma_last_place_below(init, path, paths, id, place);
        only_parts_are_collected(last, path.push(last.name), before, id);
    }
}

proof fn lemma_annotated_place(
    snapshot: SnapshotView,
    tree: TreeView,
    paths: Map<u128, Seq<Seq<char>>>,
    depth: nat,
    place: Seq<int>,
)
    requires
        is_place(snapshot, place),
    ensures
        is_place(annotated(snapshot, tree, paths, depth), place),
        snapshot_at(annotated(snapshot, tree, paths, depth), place) == annotated(
            snapshot_at(snapshot, place),
            tree,
            paths,
            depth + place.len(),
        ),
    decreases place.len(),
{
    if place.len() > 0 {
        let child = snapshot.children[place[0]];
        lemma_annotated_place(child, tree, paths, depth + 1, place.skip(1));
        assert(annotated(snapshot, tree, paths, depth).children[place[0]] == annotated(
            child,
            tree,
            paths,
            depth + 1,
        ));
        assert(depth + 1 + place.skip(1).len() == depth + place.len());
    }
}

/// Describing the references of a snapshot changes none of its instances but
/// for the paths that are kept of it.
pub proof fn describing_keeps_instances(snapshot: SnapshotView, tree: TreeView, place: Seq<int>)
    requires
        is_place(snapshot, place),
    ensures
        ({
            let paths = collected(snapshot, Seq::empty(), Map::empty());
            let before = snapshot_at(snapshot, place);
            let after = snapshot_at(annotated(snapshot, tree, paths, 0), place);
            &&& is_place(annotated(snapshot, tree, paths, 0), place)
            &&& after.id == before.id
            &&& after.name == before.name
            &&& after.class == before.class
            &&& after.properties == before.properties
            &&& after.children.len() == before.children.len()
            &&& after.meta.id == before.meta.id
            &&& after.meta.mesh_source == before.meta.mesh_source
        }),
{
    lemma_annotated_place(
        snapshot,
        tree,
        collected(snapshot, Seq::empty(), Map::empty()),
        0,
        place,
    );
}

/// Which path is kept for a reference that an instance of a snapshot holds: the
/// id of the target if the tree knows one, the hops to the top of the snapshot
/// and the names down to the target if it is part of the snapshot, and whatever
/// describes it in the tree otherwise.
pub proof fn references_of_snapshot_are_described(
    snapshot: SnapshotView,
    tree: TreeView,
    place: Seq<int>,
    name: Seq<char>,
    target: Ref,
    to: Seq<int>,
)
    requires
        is_place(snapshot, place),
        snapshot_at(snapshot, place).properties.contains_key(name),
        snapshot_at(snapshot, place).properties[name] == ValueView::Reference(target),
    ensures
        ({
            let paths = collected(snapshot, Seq::empty(), Map::empty());
            let before = snapshot_at(snapshot, place);
            let refs = snapshot_at(annotated(snapshot, tree, paths, 0), place).meta.refs;
            let known = tree.metas.contains_key(target) && tree.metas[target].id is Some;
            &&& known ==> refs.contains_key(name) && refs[name] == PathView::Id(
                tree.metas[target].id->0,
            )
            &&& !known && last_place(snapshot, target, to) ==> refs.contains_key(name)
                && refs[name] == (PathView::Relative {
                up: place.len(),
                down: names_along(snapshot, to),
            })
            &&& !known && !holds_id(snapshot, target) ==> match described(
                tree,
                before.id,
                target,
            ) {
                Some(path) => refs.contains_key(name) && refs[name] == path,
                None => {
                    &&& refs.contains_key(name) <==> before.meta.refs.contains_key(name)
                    &&& before.meta.refs.contains_key(name) ==> refs[name]
                        == before.meta.refs[name]
                },
            }
        }),
{
    let paths = collected(snapshot, Seq::empty(), Map::empty());
    lemma_annotated_place(snapshot, tree, paths, 0, place);
    if last_place(snapshot, target, to) {
        last_place_is_collected(snapshot, Seq::empty(), Map::empty(), target, to);
        assert(Seq::<Seq<char>>::empty() + names_along(snapshot, to) =~= names_along(
            snapshot,
            to,
        ));
    }
    if !holds_id(snapshot, target) {
        only_parts_are_collected(snapshot, Seq::empty(), Map::empty(), target);
    }
}

/// Nothing is described for what is no reference: a path that was kept before
/// is still kept, and none is added.
pub proof fn other_paths_of_snapshot_stay(
    snapshot: SnapshotView,
    tree: TreeView,
    place: Seq<int>,
    name: Seq<char>,
)
    requires
        is_place(snapshot, place),
        snapshot_at(snapshot, place).properties.contains_key(name) ==> !(snapshot_at(
            snapshot,
            place,
        ).properties[name] is Reference),
    ensures
        ({
            let paths = collected(snapshot, Seq::empty(), Map::empty());
            let before = snapshot_at(snapshot, place).meta.refs;
            let refs = snapshot_at(annotated(snapshot, tree, paths, 0), place).meta.refs;
            &&& refs.contains_key(name) <==> before.contains_key(name)
            &&& before.contains_key(name) ==> refs[name] == before[name]
        }),
{
    let paths = collected(snapshot, Seq::empty(), Map::empty());
    lemma_annotated_place(snapshot, tree, paths, 0, place);
}

proof fn lemma_lower_child(snapshots: Seq<SnapshotView>) -> (i: int)
    requires
        snapshots.len() > 0,
    ensures
        0 <= i < snapshots.len(),
        height_of_all(snapshots) == 1 + height(snapshots[i]),
    decreases snapshots.len(),
{
    let init = snapshots.drop_last();
    if height_of_all(init) < 1 + height(snapshots.last()) {
        snapshots.len() - 1
    } else {
        lemma_lower_child(init)
    }
}

/// No place of a snapshot is deeper than its height.
pub proof fn places_are_within_height(snapshot: SnapshotView, place: Seq<int>)
    requires
        is_place(snapshot, place),
    ensures
        place.len() <= height(snapshot),
    decreases place.len(),
{
    if place.len() > 0 {
        places_are_within_height(snapshot.children[place[0]], place.skip(1));
        child_is_lower(snapshot.children, place[0]);
    }
}

/// Some place of a snapshot is as deep as its height.
pub proof fn height_is_reached(snapshot: SnapshotView) -> (place: Seq<int>)
    ensures
        is_place(snapshot, place),
        place.len() == height(snapshot),
    decreases snapshot,
{
    if snapshot.children.len() == 0 {
        Seq::empty()
    } else {
        let i = lemma_lower_child(snapshot.children);
        let rest = height_is_reached(snapshot.children[i]);
        lemma_child_place(snapshot, i, rest);
        seq![i] + rest
    }
}

/// A meta that says nothing has no id, no paths and no mesh, and text that is
/// set is the text that is shown.
pub proof fn metas_show_what_they_hold(meta: Meta, name: Seq<char>, text: String)
    ensures
        blank_meta().id is None,
        blank_meta().mesh_source is None,
        !blank_meta().refs.contains_key(name),
        text_of(None) is None,
        text_of(Some(text)) == Some(text@),
        meta@.id == text_of(meta.id),
        meta@.mesh_source == text_of(meta.mesh_source),
        meta@.refs == paths_view(meta.refs),
{
}

} // verus!
