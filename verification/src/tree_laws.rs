//! What becomes of a snapshot in a tree, and what the operations on a tree
//! leave as it is.

use vstd::prelude::*;

use crate::growth::{brings_ids, distinct_among, distinct_ids, extends, holds_id, placed, size};
use crate::model::{with_meta, with_properties, TreeView};
use crate::position::{instance_at, is_place, snapshot_at};
use crate::property::{target_of, ValueView};
use crate::referent::{nothing, Ref};
use crate::snapshot::{MetaView, SnapshotView};

verus! {

/// Every instance of a snapshot is in the tree it was placed in, at any depth,
/// with its name, class, properties and number of children, with all that is
/// known of it, and below the instance that it is below in the snapshot.
pub proof fn placed_instances_are_kept(
    tree: TreeView,
    at: Ref,
    parent: Ref,
    snapshot: SnapshotView,
    place: Seq<int>,
)
    requires
        placed(tree, at, parent, snapshot),
        is_place(snapshot, place),
    ensures
        ({
            let id = instance_at(tree, at, place);
            let there = snapshot_at(snapshot, place);
            let instance = tree.instances[id];
            &&& tree.instances.contains_key(id)
            &&& instance.name == there.name
            &&& instance.class == there.class
            &&& instance.properties == there.properties
            &&& instance.children.len() == there.children.len()
            &&& tree.metas[id] == there.meta
            &&& place.len() == 0 ==> id == at && instance.parent == parent
            &&& place.len() > 0 ==> instance.parent == instance_at(tree, at, place.drop_last())
                && tree.instances[instance.parent].children[place.last()] == id
        }),
    decreases place.len(),
{
    if place.len() > 0 {
        let child = snapshot.children[place[0]];
        let below = tree.instances[at].children[place[0]];
        let rest = place.skip(1);
        assert(placed(tree, below, at, child));
        placed_instances_are_kept(tree, below, at, child, rest);
        if place.len() == 1 {
            assert(place.drop_last() =~= Seq::empty());
            assert(instance_at(tree, at, place.drop_last()) == at);
            assert(rest =~= Seq::empty());
        } else {
            assert(place.drop_last().skip(1) =~= rest.drop_last());
            assert(place.drop_last()[0] == place[0]);
            assert(rest.last() == place.last());
        }
    }
}

/// Adding to a tree leaves every instance as it was, but for new children at the
/// end of those of the one that was added to.
pub proof fn growing_keeps_instances(before: TreeView, after: TreeView, parent: Ref, id: Ref)
    requires
        extends(before, after, parent),
        before.instances.contains_key(id),
    ensures
        ({
            let old_instance = before.instances[id];
            let new_instance = after.instances[id];
            &&& after.root == before.root
            &&& after.instances.contains_key(id)
            &&& after.metas[id] == before.metas[id]
            &&& new_instance.name == old_instance.name
            &&& new_instance.class == old_instance.class
            &&& new_instance.properties == old_instance.properties
            &&& new_instance.parent == old_instance.parent
            &&& id != parent ==> new_instance.children == old_instance.children
            &&& old_instance.children.len() <= new_instance.children.len()
            &&& forall|i: int|
                0 <= i < old_instance.children.len() ==> new_instance.children[i]
                    == old_instance.children[i]
        }),
{
    let first = before.instances[id].children;
    let then = after.instances[id].children;
    assert forall|i: int| 0 <= i < first.len() implies then[i] == first[i] by {
        assert(then.take(first.len() as int)[i] == first[i]);
    }
}

/// The instances that were there keep their place in the order.
pub proof fn growing_keeps_order(before: TreeView, after: TreeView, parent: Ref, i: int)
    requires
        extends(before, after, parent),
        0 <= i < before.order.len(),
    ensures
        before.order.len() <= after.order.len(),
        after.order[i] == before.order[i],
{
    assert(after.order.take(before.order.len() as int)[i] == before.order[i]);
}

/// A snapshot holds itself and whatever its children hold.
pub proof fn size_counts_every_instance(snapshot: SnapshotView, child: SnapshotView)
    ensures
        snapshot.children.len() == 0 ==> size(snapshot) == 1,
        size(SnapshotView { children: snapshot.children.push(child), ..snapshot }) == size(
            snapshot,
        ) + size(child),
{
    assert(snapshot.children.push(child).drop_last() =~= snapshot.children);
}

proof fn lemma_place_holds(snapshot: SnapshotView, place: Seq<int>)
    requires
        is_place(snapshot, place),
    ensures
        holds_id(snapshot, snapshot_at(snapshot, place).id),
    decreases place.len(),
{
    if place.len() > 0 {
        lemma_place_holds(snapshot.children[place[0]], place.skip(1));
    }
}

proof fn lemma_held_at(snapshot: SnapshotView, id: Ref) -> (place: Seq<int>)
    requires
        holds_id(snapshot, id),
    ensures
        is_place(snapshot, place),
        snapshot_at(snapshot, place).id == id,
    decreases snapshot,
{
    if snapshot.id == id {
        Seq::empty()
    } else {
        let i = choose|i: int|
            0 <= i < snapshot.children.len() && holds_id(#[trigger] snapshot.children[i], id);
        let rest = lemma_held_at(snapshot.children[i], id);
        let place = seq![i] + rest;
        assert(place.skip(1) =~= rest);
        place
    }
}

/// No two places of the snapshot hold the same id.
pub open spec fn one_id_per_place(snapshot: SnapshotView) -> bool {
    forall|one: Seq<int>, other: Seq<int>| #[trigger]
        is_place(snapshot, one) && #[trigger] is_place(snapshot, other) && snapshot_at(
            snapshot,
            one,
        ).id == snapshot_at(snapshot, other).id ==> one == other
}

proof fn lemma_distinct_places(snapshot: SnapshotView, one: Seq<int>, other: Seq<int>)
    requires
        distinct_ids(snapshot),
        is_place(snapshot, one),
        is_place(snapshot, other),
        snapshot_at(snapshot, one).id == snapshot_at(snapshot, other).id,
    ensures
        one == other,
    decreases one.len(),
{
    let id = snapshot_at(snapshot, one).id;
    if one.len() == 0 {
        if other.len() > 0 {
            lemma_place_holds(snapshot.children[other[0]], other.skip(1));
            assert(!holds_id(snapshot.children[other[0]], snapshot.id));
        }
        assert(one =~= other);
    } else {
        lemma_place_holds(snapshot.children[one[0]], one.skip(1));
        assert(holds_id(snapshot.children[one[0]], id));
        assert(!holds_id(snapshot.children[one[0]], snapshot.id));
        assert(other.len() > 0);
        lemma_place_holds(snapshot.children[other[0]], other.skip(1));
        assert(holds_id(snapshot.children[other[0]], id));
        assert(one[0] == other[0]);
        assert(distinct_ids(snapshot.children[one[0]]));
        lemma_distinct_places(snapshot.children[one[0]], one.skip(1), other.skip(1));
        assert(one =~= seq![one[0]] + one.skip(1));
        assert(other =~= seq![other[0]] + other.skip(1));
    }
}

proof fn lemma_child_place(snapshot: SnapshotView, i: int, place: Seq<int>)
    requires
        0 <= i < snapshot.children.len(),
        is_place(snapshot.children[i], place),
    ensures
        is_place(snapshot, seq![i] + place),
        snapshot_at(snapshot, seq![i] + place) == snapshot_at(snapshot.children[i], place),
        (seq![i] + place).skip(1) == place,
{
    assert((seq![i] + place).skip(1) =~= place);
}

proof fn lemma_places_distinct(snapshot: SnapshotView)
    requires
        one_id_per_place(snapshot),
    ensures
        distinct_ids(snapshot),
    decreases snapshot,
{
    let kids = snapshot.children;
    let top = Seq::<int>::empty();
    assert(is_place(snapshot, top));
    assert(snapshot_at(snapshot, top) == snapshot);
    assert forall|i: int| 0 <= i < kids.len() implies distinct_ids(#[trigger] kids[i])
        && !holds_id(kids[i], snapshot.id) by {
        assert forall|one: Seq<int>, other: Seq<int>| #[trigger]
            is_place(kids[i], one) && #[trigger] is_place(kids[i], other) && snapshot_at(
                kids[i],
                one,
            ).id == snapshot_at(kids[i], other).id implies one == other by {
            lemma_child_place(snapshot, i, one);
            lemma_child_place(snapshot, i, other);
            assert(seq![i] + one == seq![i] + other);
        }
        lemma_places_distinct(kids[i]);
        if holds_id(kids[i], snapshot.id) {
            let place = lemma_held_at(kids[i], snapshot.id);
            lemma_child_place(snapshot, i, place);
            assert((seq![i] + place).len() > 0);
        }
    }
    assert forall|i: int, k: int, id: Ref|
        0 <= i < k < kids.len() && #[trigger] holds_id(kids[i], id) && #[trigger] holds_id(
            kids[k],
            id,
        ) implies false by {
        let one = lemma_held_at(kids[i], id);
        let other = lemma_held_at(kids[k], id);
        lemma_child_place(snapshot, i, one);
        lemma_child_place(snapshot, k, other);
        assert((seq![i] + one)[0] != (seq![k] + other)[0]);
    }
    assert(distinct_among(kids));
}

/// The ids of a snapshot are distinct exactly if no two places hold the same.
pub proof fn distinct_ids_have_one_place(snapshot: SnapshotView)
    ensures
        distinct_ids(snapshot) <==> one_id_per_place(snapshot),
{
    if distinct_ids(snapshot) {
        assert forall|one: Seq<int>, other: Seq<int>| #[trigger]
            is_place(snapshot, one) && #[trigger] is_place(snapshot, other) && snapshot_at(
                snapshot,
                one,
            ).id == snapshot_at(snapshot, other).id implies one == other by {
            lemma_distinct_places(snapshot, one, other);
        }
    }
    if one_id_per_place(snapshot) {
        lemma_places_distinct(snapshot);
    }
}

/// An id is held exactly if some place of the snapshot holds it.
pub proof fn held_ids_have_a_place(snapshot: SnapshotView, id: Ref)
    ensures
        holds_id(snapshot, id) <==> exists|place: Seq<int>| #[trigger]
            is_place(snapshot, place) && snapshot_at(snapshot, place).id == id,
{
    if holds_id(snapshot, id) {
        let place = lemma_held_at(snapshot, id);
        assert(is_place(snapshot, place));
    }
    if exists|place: Seq<int>| #[trigger]
        is_place(snapshot, place) && snapshot_at(snapshot, place).id == id {
        let place = choose|place: Seq<int>| #[trigger]
            is_place(snapshot, place) && snapshot_at(snapshot, place).id == id;
        lemma_place_holds(snapshot, place);
    }
}

/// A snapshot brings its ids along exactly if no two places hold the same, none
/// holds none, and the tree knows none of them.
pub proof fn brought_ids_are_new(snapshot: SnapshotView, tree: TreeView)
    ensures
        brings_ids(snapshot, tree) <==> one_id_per_place(snapshot) && forall|place: Seq<int>|
            #[trigger]
            is_place(snapshot, place) ==> snapshot_at(snapshot, place).id != nothing()
                && !tree.instances.contains_key(snapshot_at(snapshot, place).id),
{
    distinct_ids_have_one_place(snapshot);
    if brings_ids(snapshot, tree) {
        assert forall|place: Seq<int>| #[trigger] is_place(snapshot, place) implies snapshot_at(
            snapshot,
            place,
        ).id != nothing() && !tree.instances.contains_key(snapshot_at(snapshot, place).id) by {
            lemma_place_holds(snapshot, place);
        }
    }
    if one_id_per_place(snapshot) && forall|place: Seq<int>| #[trigger]
        is_place(snapshot, place) ==> snapshot_at(snapshot, place).id != nothing()
            && !tree.instances.contains_key(snapshot_at(snapshot, place).id) {
        assert forall|id: Ref| #[trigger] holds_id(snapshot, id) implies id != nothing()
            && !tree.instances.contains_key(id) by {
            let place = lemma_held_at(snapshot, id);
            assert(is_place(snapshot, place));
        }
    }
}

/// Replacing what is known of an instance changes that and nothing else, and
/// nothing at all if there is no such instance.
pub proof fn new_meta_changes_one_instance(
    tree: TreeView,
    id: Ref,
    meta: MetaView,
    other: Ref,
)
    ensures
        ({
            let after = with_meta(tree, id, meta);
            &&& after.root == tree.root
            &&& after.order == tree.order
            &&& after.instances == tree.instances
            &&& tree.instances.contains_key(id) ==> after.metas.contains_key(id) && after.metas[id]
                == meta
            &&& other != id || !tree.instances.contains_key(id) ==> (after.metas.contains_key(other)
                <==> tree.metas.contains_key(other)) && after.metas[other] == tree.metas[other]
        }),
{
}

/// Storing properties on an instance puts each of them in place of what it had
/// under the same name, and changes nothing else.
pub proof fn new_properties_change_one_instance(
    tree: TreeView,
    id: Ref,
    properties: Map<Seq<char>, ValueView>,
    other: Ref,
    name: Seq<char>,
)
    requires
        tree.instances.contains_key(id),
    ensures
        ({
            let after = with_properties(tree, id, properties);
            let before = tree.instances[id];
            let now = after.instances[id];
            &&& after.root == tree.root
            &&& after.order == tree.order
            &&& after.metas == tree.metas
            &&& after.instances.contains_key(other) <==> tree.instances.contains_key(other)
            &&& other != id ==> after.instances[other] == tree.instances[other]
            &&& now.name == before.name
            &&& now.class == before.class
            &&& now.parent == before.parent
            &&& now.children == before.children
            &&& now.properties.contains_key(name) <==> before.properties.contains_key(name)
                || properties.contains_key(name)
            &&& properties.contains_key(name) ==> now.properties[name] == properties[name]
            &&& !properties.contains_key(name) && before.properties.contains_key(name)
                ==> now.properties[name] == before.properties[name]
        }),
{
}

/// A property points at an instance exactly if it is a reference to it.
pub proof fn only_references_point(
    properties: Map<Seq<char>, ValueView>,
    name: Seq<char>,
    target: Ref,
)
    ensures
        target_of(properties, name) == Some(target) <==> properties.contains_key(name)
            && properties[name] == ValueView::Reference(target),
{
}

} // verus!
