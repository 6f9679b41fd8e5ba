//! What holds of linking a tree and of writing references to disk.

use vstd::prelude::*;

use crate::laws::{described_path_leads_to_target, sole_claimant};
use crate::model::{described, holders, holders_in, resolved, well_formed, TreeView};
use crate::property::{target_in, target_of, ValueView};
use crate::ref_path::{parsed, reading_undoes_writing, shown, writable, PathView};
use crate::referent::Ref;
use crate::refs::{linked, paths_for, relinked, stale, stale_among, written};
use crate::shape::{holders_hold_paths, paths_follow_shape, same_shape};
use crate::snapshot::MetaView;

verus! {

/// Linking a tree changes nothing but properties.
pub proof fn linking_keeps_shape(tree: TreeView)
    ensures
        same_shape(tree, relinked(tree)),
        forall|id: Ref| #[trigger]
            tree.instances.contains_key(id) ==> relinked(tree).instances[id].class
                == tree.instances[id].class,
{
}

proof fn lemma_links_stay(tree: TreeView, id: Ref)
    ensures
        linked(relinked(tree), id) == linked(tree, id),
{
    linking_keeps_shape(tree);
    let refs = tree.metas[id].refs;
    assert forall|name: Seq<char>| refs.contains_key(name) implies resolved(
        relinked(tree),
        refs[name],
        id,
    ) == resolved(tree, refs[name], id) by {
        paths_follow_shape(tree, relinked(tree), refs[name], id);
    }
    assert(linked(relinked(tree), id) =~= linked(tree, id));
}

/// After linking, an instance points at whatever each of its paths leads to.
/// A path that leads nowhere leaves its property alone, and a property that no
/// path is known for stays as it is.
pub proof fn linking_follows_every_path(tree: TreeView, id: Ref, name: Seq<char>)
    requires
        tree.instances.contains_key(id),
    ensures
        tree.metas[id].refs.contains_key(name) && resolved(
            tree,
            tree.metas[id].refs[name],
            id,
        ) is Some ==> target_of(relinked(tree).instances[id].properties, name) == resolved(
            tree,
            tree.metas[id].refs[name],
            id,
        ),
        !tree.metas[id].refs.contains_key(name) || resolved(
            tree,
            tree.metas[id].refs[name],
            id,
        ) is None ==> (relinked(tree).instances[id].properties.contains_key(name)
            <==> tree.instances[id].properties.contains_key(name)) && (
        tree.instances[id].properties.contains_key(name)
            ==> relinked(tree).instances[id].properties[name]
            == tree.instances[id].properties[name]),
{
}

proof fn lemma_nothing_is_stale(tree: TreeView, ids: Seq<Ref>)
    requires
        forall|i: int| 0 <= i < ids.len() ==> tree.instances.contains_key(#[trigger] ids[i]),
    ensures
        stale_among(relinked(tree), ids).len() == 0,
    decreases ids.len(),
{
    if ids.len() > 0 {
        let last = ids.last();
        let init = ids.drop_last();
        assert forall|i: int| 0 <= i < init.len() implies tree.instances.contains_key(
            #[trigger] init[i],
        ) by {
            assert(ids[i] == init[i]);
        }
        lemma_nothing_is_stale(tree, init);
        lemma_links_stay(tree, last);
        assert(tree.instances.contains_key(ids[ids.len() - 1]));
        assert(!stale(relinked(tree), last));
    }
}

/// Linking a tree that was just linked changes nothing, and there is nothing
/// left to tell the client.
pub proof fn linking_twice_is_linking_once(tree: TreeView)
    requires
        well_formed(tree),
    ensures
        relinked(relinked(tree)) == relinked(tree),
        stale_among(relinked(tree), holders(relinked(tree))).len() == 0,
{
    let once = relinked(tree);
    let twice = relinked(once);
    assert forall|id: Ref| tree.instances.contains_key(id) implies #[trigger] twice.instances[id]
        == once.instances[id] by {
        lemma_links_stay(tree, id);
        assert(twice.instances[id].properties =~= once.instances[id].properties);
    }
    assert(twice.instances =~= once.instances);
    let ids = holders(once);
    holders_hold_paths(tree.order, tree.metas);
    assert forall|i: int| 0 <= i < ids.len() implies tree.instances.contains_key(
        #[trigger] ids[i],
    ) by {
        assert(ids.contains(ids[i]));
        assert(tree.order.contains(ids[i]));
    }
    lemma_nothing_is_stale(tree, ids);
}

/// What is written to disk holds no raw reference.
pub proof fn no_reference_is_written(
    properties: Map<Seq<char>, ValueView>,
    refs: Map<Seq<char>, PathView>,
    name: Seq<char>,
)
    ensures
        target_of(written(properties, refs), name) is None,
{
}

/// Properties that are no references are written as they are.
pub proof fn other_properties_are_kept(
    properties: Map<Seq<char>, ValueView>,
    refs: Map<Seq<char>, PathView>,
    name: Seq<char>,
)
    requires
        target_of(properties, name) is None,
    ensures
        written(properties, refs).contains_key(name) <==> properties.contains_key(name),
        properties.contains_key(name) ==> written(properties, refs)[name] == properties[name],
{
}

/// A reference survives being written to a file and read back: the text that
/// takes its place reads as a path that leads to the very same instance. It
/// has to be describable at all, by a path whose text reads back, and not be
/// the root pointing at itself or at an id that others claim too.
pub proof fn reference_survives_disk(
    properties: Map<Seq<char>, ValueView>,
    tree: TreeView,
    id: Ref,
    name: Seq<char>,
)
    requires
        well_formed(tree),
        target_of(properties, name) matches Some(target) && described(tree, id, target) matches Some(
            path,
        ) && writable(path) && sole_claimant(tree, target) && !(id == target && target
            == tree.root && tree.metas[target].id is None),
    ensures
        written(properties, paths_for(properties, tree, id)).contains_key(name),
        written(properties, paths_for(properties, tree, id))[name] matches ValueView::Text(text)
            && parsed(text) matches Some(path) && resolved(tree, path, id) == target_of(
            properties,
            name,
        ),
{
    let target = target_of(properties, name)->0;
    let path = described(tree, id, target)->0;
    reading_undoes_writing(path);
    described_path_leads_to_target(tree, id, target);
    assert(paths_for(properties, tree, id).contains_key(name));
}

/// `one` is listed before `other`.
pub open spec fn comes_before(ids: Seq<Ref>, one: Ref, other: Ref) -> bool {
    exists|a: int, b: int|
        0 <= a < b < ids.len() && #[trigger] ids[a] == one && #[trigger] ids[b] == other
}

proof fn lemma_stale_means_changed(tree: TreeView, id: Ref)
    requires
        tree.instances.contains_key(id),
    ensures
        stale(tree, id) <==> relinked(tree).instances[id].properties
            != tree.instances[id].properties,
{
    let before = tree.instances[id].properties;
    let after = relinked(tree).instances[id].properties;
    let links = linked(tree, id);
    if stale(tree, id) {
        let name = choose|name: Seq<char>| #[trigger]
            links.contains_key(name) && target_of(before, name) != target_in(links[name]);
        assert(after[name] == links[name]);
        assert(target_of(after, name) != target_of(before, name));
    } else {
        assert forall|name: Seq<char>| links.contains_key(name) implies before.contains_key(name)
            && before[name] == links[name] by {
            assert(target_of(before, name) == target_in(links[name]));
        }
        assert(after =~= before);
    }
}

proof fn lemma_stale_among(tree: TreeView, ids: Seq<Ref>)
    requires
        ids.no_duplicates(),
    ensures
        stale_among(tree, ids).no_duplicates(),
        forall|id: Ref| #[trigger]
            stale_among(tree, ids).contains(id) <==> ids.contains(id) && stale(tree, id),
        forall|i: int, k: int|
            0 <= i < k < stale_among(tree, ids).len() ==> comes_before(
                ids,
                #[trigger] stale_among(tree, ids)[i],
                #[trigger] stale_among(tree, ids)[k],
            ),
    decreases ids.len(),
{
    if ids.len() > 0 {
        let init = ids.drop_last();
        let last = ids.last();
        let before = stale_among(tree, init);
        let all = stale_among(tree, ids);
        lemma_stale_among(tree, init);
        assert(!init.contains(last));
        assert(!before.contains(last));
        lemma_last_of(ids);
        assert forall|id: Ref| #[trigger] all.contains(id) <==> ids.contains(id) && stale(
            tree,
            id,
        ) by {
            assert(before.contains(id) <==> init.contains(id) && stale(tree, id));
            assert(ids.contains(id) <==> init.contains(id) || id == last);
            if stale(tree, last) {
                assert(all == before.push(last));
                assert(all.drop_last() =~= before);
                lemma_last_of(all);
                assert(all.contains(id) <==> all.drop_last().contains(id) || id == all.last());
            }
        }
        assert forall|i: int, k: int| 0 <= i < k < all.len() implies comes_before(
            ids,
            #[trigger] all[i],
            #[trigger] all[k],
        ) by {
            if k < before.len() {
                assert(all[i] == before[i]);
                assert(all[k] == before[k]);
                assert(comes_before(init, before[i], before[k]));
                let (a, b) = choose|a: int, b: int|
                    0 <= a < b < init.len() && #[trigger] init[a] == before[i] && #[trigger] init[b]
                        == before[k];
                assert(ids[a] == all[i] && ids[b] == all[k]);
            } else {
                assert(before.contains(before[i]));
                assert(init.contains(before[i]));
                let a = choose|a: int| 0 <= a < init.len() && init[a] == before[i];
                assert(ids[a] == all[i] && ids[ids.len() - 1] == all[k]);
            }
        }
    }
}

proof fn lemma_last_of(ids: Seq<Ref>)
    requires
        ids.len() > 0,
    ensures
        forall|id: Ref| #[trigger]
            ids.contains(id) <==> ids.drop_last().contains(id) || id == ids.last(),
{
    assert forall|id: Ref| #[trigger]
        ids.contains(id) <==> ids.drop_last().contains(id) || id == ids.last() by {
        let init = ids.drop_last();
        if ids.contains(id) {
            let k = choose|k: int| 0 <= k < ids.len() && ids[k] == id;
            if k < init.len() {
                assert(init[k] == id);
            }
        }
        if init.contains(id) {
            let k = choose|k: int| 0 <= k < init.len() && init[k] == id;
            assert(ids[k] == id);
        }
        assert(ids[ids.len() - 1] == ids.last());
    }
}

proof fn lemma_order_of_holders(order: Seq<Ref>, metas: Map<Ref, MetaView>)
    ensures
        forall|i: int, k: int|
            0 <= i < k < holders_in(order, metas).len() ==> comes_before(
                order,
                #[trigger] holders_in(order, metas)[i],
                #[trigger] holders_in(order, metas)[k],
            ),
        forall|i: int|
            0 <= i < holders_in(order, metas).len() ==> order.contains(
                #[trigger] holders_in(order, metas)[i],
            ),
    decreases order.len(),
{
    if order.len() > 0 {
        let init = order.drop_last();
        let before = holders_in(init, metas);
        let all = holders_in(order, metas);
        lemma_order_of_holders(init, metas);
        assert forall|i: int| 0 <= i < all.len() implies order.contains(#[trigger] all[i]) by {
            if i < before.len() {
                assert(all[i] == before[i]);
                assert(init.contains(before[i]));
                let a = choose|a: int| 0 <= a < init.len() && init[a] == before[i];
                assert(order[a] == all[i]);
            } else {
                assert(order[order.len() - 1] == all[i]);
            }
        }
        assert forall|i: int, k: int| 0 <= i < k < all.len() implies comes_before(
            order,
            #[trigger] all[i],
            #[trigger] all[k],
        ) by {
            assert(all[i] == before[i]);
            if k < before.len() {
                assert(all[k] == before[k]);
                assert(comes_before(init, before[i], before[k]));
                let (a, b) = choose|a: int, b: int|
                    0 <= a < b < init.len() && #[trigger] init[a] == before[i] && #[trigger] init[b]
                        == before[k];
                assert(order[a] == all[i] && order[b] == all[k]);
            } else {
                assert(init.contains(before[i]));
                let a = choose|a: int| 0 <= a < init.len() && init[a] == before[i];
                assert(order[a] == all[i] && order[order.len() - 1] == all[k]);
            }
        }
    }
}

/// The instances that hold paths are listed once each, in the order in which
/// they were added, and no other instance is.
pub proof fn holders_are_listed_in_order(tree: TreeView)
    requires
        well_formed(tree),
    ensures
        holders(tree).no_duplicates(),
        forall|id: Ref| #[trigger]
            holders(tree).contains(id) <==> tree.instances.contains_key(id) && exists|
                name: Seq<char>,
            | #[trigger]
                tree.metas[id].refs.contains_key(name),
        forall|i: int, k: int|
            0 <= i < k < holders(tree).len() ==> comes_before(
                tree.order,
                #[trigger] holders(tree)[i],
                #[trigger] holders(tree)[k],
            ),
{
    holders_hold_paths(tree.order, tree.metas);
    lemma_order_of_holders(tree.order, tree.metas);
    assert forall|id: Ref| #[trigger]
        holders(tree).contains(id) <==> tree.instances.contains_key(id) && exists|
            name: Seq<char>,
        | #[trigger]
            tree.metas[id].refs.contains_key(name) by {
        assert(tree.order.contains(id) <==> tree.instances.contains_key(id));
        let refs = tree.metas[id].refs;
        if refs.dom() != Set::<Seq<char>>::empty() {
            if forall|name: Seq<char>| !#[trigger] refs.contains_key(name) {
                assert(refs.dom() =~= Set::<Seq<char>>::empty());
            }
        } else if exists|name: Seq<char>| #[trigger] refs.contains_key(name) {
            let name = choose|name: Seq<char>| #[trigger] refs.contains_key(name);
            assert(refs.dom().contains(name));
        }
    }
}

/// The client is told of an instance if and only if linking changed one of its
/// properties, once for each, in the order in which they were added.
pub proof fn updates_are_complete(tree: TreeView)
    requires
        well_formed(tree),
    ensures
        ({
            let told = stale_among(tree, holders(tree));
            &&& told.no_duplicates()
            &&& forall|id: Ref| #[trigger]
                told.contains(id) <==> tree.instances.contains_key(id) && relinked(
                    tree,
                ).instances[id].properties != tree.instances[id].properties
            &&& forall|i: int, k: int|
                0 <= i < k < told.len() ==> comes_before(
                    tree.order,
                    #[trigger] told[i],
                    #[trigger] told[k],
                )
        }),
{
    let ids = holders(tree);
    let told = stale_among(tree, ids);
    holders_are_listed_in_order(tree);
    lemma_stale_among(tree, ids);
    assert forall|id: Ref| #[trigger]
        told.contains(id) <==> tree.instances.contains_key(id) && relinked(
            tree,
        ).instances[id].properties != tree.instances[id].properties by {
        assert(told.contains(id) <==> ids.contains(id) && stale(tree, id));
        if tree.instances.contains_key(id) {
            lemma_stale_means_changed(tree, id);
            if stale(tree, id) {
                let name = choose|name: Seq<char>| #[trigger]
                    linked(tree, id).contains_key(name) && target_of(
                        tree.instances[id].properties,
                        name,
                    ) != target_in(linked(tree, id)[name]);
                assert(tree.metas[id].refs.contains_key(name));
                assert(ids.contains(id));
            }
        } else {
            assert(!ids.contains(id));
        }
    }
    assert forall|i: int, k: int| 0 <= i < k < told.len() implies comes_before(
        tree.order,
        #[trigger] told[i],
        #[trigger] told[k],
    ) by {
        assert(comes_before(ids, told[i], told[k]));
        let (a, b) = choose|a: int, b: int|
            0 <= a < b < ids.len() && #[trigger] ids[a] == told[i] && #[trigger] ids[b] == told[k];
        assert(comes_before(tree.order, ids[a], ids[b]));
    }
}

/// Linking keeps every instance, with its name, class, parent and children, and
/// all that is known of it, and it adds none.
pub proof fn linking_moves_nothing(tree: TreeView, id: Ref)
    ensures
        ({
            let after = relinked(tree);
            &&& after.root == tree.root
            &&& after.order == tree.order
            &&& after.metas == tree.metas
            &&& after.instances.contains_key(id) <==> tree.instances.contains_key(id)
            &&& tree.instances.contains_key(id) ==> {
                &&& after.instances[id].name == tree.instances[id].name
                &&& after.instances[id].class == tree.instances[id].class
                &&& after.instances[id].parent == tree.instances[id].parent
                &&& after.instances[id].children == tree.instances[id].children
            }
        }),
{
}

/// What linking makes of one property: a reference to whatever the path kept
/// for it leads to, and otherwise what it was.
pub proof fn linked_property_is_reference(tree: TreeView, id: Ref, name: Seq<char>)
    requires
        tree.instances.contains_key(id),
    ensures
        ({
            let before = tree.instances[id].properties;
            let after = relinked(tree).instances[id].properties;
            let refs = tree.metas[id].refs;
            if refs.contains_key(name) && resolved(tree, refs[name], id) is Some {
                &&& after.contains_key(name)
                &&& after[name] == ValueView::Reference(resolved(tree, refs[name], id)->0)
            } else {
                &&& after.contains_key(name) <==> before.contains_key(name)
                &&& before.contains_key(name) ==> after[name] == before[name]
            }
        }),
{
}

/// What is written for one property: the text of the path if it is a reference
/// that a path is known for, nothing if none is known, and the property itself
/// if it is no reference.
pub proof fn written_reference_is_its_path(
    properties: Map<Seq<char>, ValueView>,
    refs: Map<Seq<char>, PathView>,
    name: Seq<char>,
)
    ensures
        ({
            let text = written(properties, refs);
            if !properties.contains_key(name) {
                !text.contains_key(name)
            } else if properties[name] is Reference {
                &&& text.contains_key(name) <==> refs.contains_key(name)
                &&& refs.contains_key(name) ==> text[name] == ValueView::Text(shown(refs[name]))
            } else {
                text.contains_key(name) && text[name] == properties[name]
            }
        }),
{
}

/// A path is kept for exactly those properties that are references to what can
/// be described, and it is the one that describes it.
pub proof fn every_reference_is_described(
    properties: Map<Seq<char>, ValueView>,
    tree: TreeView,
    id: Ref,
    name: Seq<char>,
)
    ensures
        ({
            let refs = paths_for(properties, tree, id);
            if properties.contains_key(name) && properties[name] is Reference {
                let path = described(tree, id, properties[name]->Reference_0);
                &&& refs.contains_key(name) <==> path is Some
                &&& path is Some ==> refs[name] == path->0
            } else {
                !refs.contains_key(name)
            }
        }),
{
}

} // verus!
