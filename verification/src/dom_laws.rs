//! What becomes of the references of a file once its instances are in a tree.

use vstd::prelude::*;

use crate::dom::{
    children_make_subtree, complete, generations, intact, present, subtree,
    subtree_shows_children, FileInstanceView,
};
use crate::dom_paths::{
    descends, found_once, intact_is_found_once, intact_names_are_collected, is_route,
    longer_route, names_lead_to_descendants, route_goes_on,
};
use crate::dom_snapshot::{detached, paths_within};
use crate::growth::{distinct_among, distinct_ids, holds_id, placed};
use crate::model::{resolved, well_formed, TreeView};
use crate::position::{
    clear_place, collected_names_lead_to_place, instance_at, is_place, names_along,
    only_parts_are_collected, path_leads_between_places, place_keeps_meta, snapshot_at,
};
use crate::property::{target_in, target_of};
use crate::ref_path::PathView;
use crate::referent::{nothing, Ref};
use crate::refs::collected;
use crate::snapshot::SnapshotView;

verus! {

/// The instances of a file stay where they are, and so do their names.
pub proof fn detaching_keeps_places(
    file: SnapshotView,
    paths: Map<u128, Seq<Seq<char>>>,
    meshes: Map<u128, String>,
    depth: nat,
    place: Seq<int>,
)
    requires
        is_place(file, place),
    ensures
        is_place(detached(file, paths, meshes, depth), place),
        snapshot_at(detached(file, paths, meshes, depth), place) == detached(
            snapshot_at(file, place),
            paths,
            meshes,
            depth + place.len(),
        ),
        names_along(detached(file, paths, meshes, depth), place) == names_along(file, place),
        clear_place(file, place) ==> clear_place(detached(file, paths, meshes, depth), place),
    decreases place.len(),
{
    if place.len() > 0 {
        let child = file.children[place[0]];
        let whole = detached(file, paths, meshes, depth);
        detaching_keeps_places(child, paths, meshes, depth + 1, place.skip(1));
        assert(whole.children[place[0]] == detached(child, paths, meshes, depth + 1));
        assert(depth + 1 + place.skip(1).len() == depth + place.len());
        if clear_place(file, place) {
            assert forall|i: int|
                0 <= i < whole.children.len() && (#[trigger] whole.children[i]).name
                    == whole.children[place[0]].name implies i == place[0] by {
                assert(whole.children[i] == detached(file.children[i], paths, meshes, depth + 1));
                assert(file.children[i].name == child.name);
            }
        }
    }
}

/// No instance that comes out of a file keeps its id or a raw reference, and
/// every property that is no reference is kept.
pub proof fn no_referent_leaves_file(
    file: SnapshotView,
    paths: Map<u128, Seq<Seq<char>>>,
    meshes: Map<u128, String>,
    place: Seq<int>,
    name: Seq<char>,
)
    requires
        is_place(file, place),
    ensures
        ({
            let before = snapshot_at(file, place).properties;
            let there = snapshot_at(detached(file, paths, meshes, 0), place);
            &&& there.id == nothing()
            &&& target_of(there.properties, name) is None
            &&& there.properties.contains_key(name) <==> before.contains_key(name) && target_in(
                before[name],
            ) is None
            &&& there.properties.contains_key(name) ==> there.properties[name] == before[name]
        }),
{
    detaching_keeps_places(file, paths, meshes, 0, place);
}

/// A reference to an instance that is not part of what is read is dropped.
pub proof fn reference_leaving_file_is_dropped(
    file: SnapshotView,
    meshes: Map<u128, String>,
    place: Seq<int>,
    name: Seq<char>,
    target: Ref,
)
    requires
        is_place(file, place),
        target_of(snapshot_at(file, place).properties, name) == Some(target),
        !holds_id(file, target),
    ensures
        ({
            let paths = collected(file, Seq::empty(), Map::empty());
            let there = snapshot_at(detached(file, paths, meshes, 0), place);
            &&& !there.properties.contains_key(name)
            &&& !there.meta.refs.contains_key(name)
        }),
{
    let paths = collected(file, Seq::empty(), Map::empty());
    detaching_keeps_places(file, paths, meshes, 0, place);
    only_parts_are_collected(file, Seq::empty(), Map::empty(), target);
}

/// A reference from one instance of a file to another leads to its target in
/// whatever tree the instances are placed in, as long as no instance on the
/// way to the target shares its name with a sibling.
pub proof fn reference_inside_file_leads_to_target(
    file: SnapshotView,
    meshes: Map<u128, String>,
    tree: TreeView,
    at: Ref,
    parent: Ref,
    from: Seq<int>,
    to: Seq<int>,
    name: Seq<char>,
)
    requires
        distinct_ids(file),
        is_place(file, from),
        is_place(file, to),
        clear_place(file, to),
        target_of(snapshot_at(file, from).properties, name) == Some(snapshot_at(file, to).id),
        well_formed(tree),
        placed(
            tree,
            at,
            parent,
            detached(file, collected(file, Seq::empty(), Map::empty()), meshes, 0),
        ),
    ensures
        ({
            let path = PathView::Relative { up: from.len(), down: names_along(file, to) };
            let holder = instance_at(tree, at, from);
            &&& tree.metas[holder].refs.contains_key(name)
            &&& tree.metas[holder].refs[name] == path
            &&& resolved(tree, path, holder) == Some(instance_at(tree, at, to))
        }),
{
    let paths = collected(file, Seq::empty(), Map::empty());
    let free = detached(file, paths, meshes, 0);
    detaching_keeps_places(file, paths, meshes, 0, from);
    detaching_keeps_places(file, paths, meshes, 0, to);
    collected_names_lead_to_place(file, Seq::empty(), Map::empty(), to);
    assert(Seq::<Seq<char>>::empty() + names_along(file, to) =~= names_along(file, to));
    path_leads_between_places(tree, at, parent, free, from, to);
    place_keeps_meta(tree, at, parent, free, from);
    assert(paths_within(snapshot_at(file, from).properties, paths, from.len()).contains_key(name));
}

/// What is read at a place of a file is what the file holds there: the way
/// down follows the children that each instance lists.
pub proof fn places_follow_file(
    dom: Map<u128, FileInstanceView>,
    id: Ref,
    place: Seq<int>,
    i: int,
)
    requires
        present(dom, id),
        is_place(subtree(dom, id), place),
    ensures
        subtree(dom, id).id == id,
        ({
            let there = snapshot_at(subtree(dom, id), place);
            let held = dom[there.id.value];
            &&& dom.contains_key(there.id.value)
            &&& there.name == held.name
            &&& there.class == held.class
            &&& there.properties == held.properties
            &&& there.children.len() == held.children.len()
            &&& 0 <= i < held.children.len() ==> is_place(subtree(dom, id), place.push(i))
                && snapshot_at(subtree(dom, id), place.push(i)).id == held.children[i]
        }),
    decreases place.len(),
{
    subtree_shows_children(dom, id);
    let file = subtree(dom, id);
    let kids = dom[id.value].children;
    let on = place.push(i);
    if place.len() == 0 {
        let end = Seq::<int>::empty();
        assert(on.skip(1) =~= end);
        if 0 <= i < kids.len() {
            assert(present(dom, dom[id.value].children[i]));
            subtree_shows_children(dom, kids[i]);
            assert(file.children[i] == subtree(dom, kids[i]));
            assert(is_place(file.children[i], end));
            assert(snapshot_at(file.children[i], end) == file.children[i]);
            assert(on[0] == i);
            assert(is_place(file, on));
            assert(snapshot_at(file, on) == snapshot_at(file.children[i], on.skip(1)));
        }
    } else {
        let first = place[0];
        assert(file.children[first] == subtree(dom, kids[first]));
        assert(on[0] == first);
        assert(present(dom, dom[id.value].children[first]));
        places_follow_file(dom, kids[first], place.skip(1), i);
        assert(on.skip(1) =~= place.skip(1).push(i));
    }
}

/// Reading keeps every instance of the file where it is, at any depth, with its
/// name, its class and its number of children. Only a `MeshPart` has a mesh,
/// and it is the one that was saved for it.
pub proof fn reading_keeps_instances(
    dom: Map<u128, FileInstanceView>,
    id: Ref,
    meshes: Map<u128, String>,
    place: Seq<int>,
)
    requires
        present(dom, id),
        is_place(subtree(dom, id), place),
    ensures
        ({
            let file = subtree(dom, id);
            let held = dom[snapshot_at(file, place).id.value];
            let key = snapshot_at(file, place).id.value;
            let read = detached(file, collected(file, Seq::empty(), Map::empty()), meshes, 0);
            let there = snapshot_at(read, place);
            &&& is_place(read, place)
            &&& there.name == held.name
            &&& there.class == held.class
            &&& there.children.len() == held.children.len()
            &&& there.meta.id is None
            &&& held.class == "MeshPart"@ && meshes.contains_key(key) ==> there.meta.mesh_source
                == Some(meshes[key]@)
            &&& held.class != "MeshPart"@ || !meshes.contains_key(key)
                ==> there.meta.mesh_source is None
        }),
{
    let file = subtree(dom, id);
    places_follow_file(dom, id, place, 0);
    detaching_keeps_places(
        file,
        collected(file, Seq::empty(), Map::empty()),
        meshes,
        0,
        place,
    );
}

/// Reading keeps every property of every instance that is no reference, swaps
/// each reference to another instance of the file for the hops to the top and
/// the names down to it, and drops all other references.
pub proof fn reading_swaps_references(
    dom: Map<u128, FileInstanceView>,
    id: Ref,
    meshes: Map<u128, String>,
    place: Seq<int>,
    name: Seq<char>,
    to: Seq<int>,
)
    requires
        intact(dom, id),
        is_place(subtree(dom, id), place),
    ensures
        ({
            let file = subtree(dom, id);
            let held = dom[snapshot_at(file, place).id.value].properties;
            let read = detached(file, collected(file, Seq::empty(), Map::empty()), meshes, 0);
            let kept = snapshot_at(read, place).properties;
            let refs = snapshot_at(read, place).meta.refs;
            if !held.contains_key(name) {
                !kept.contains_key(name) && !refs.contains_key(name)
            } else if !(held[name] is Reference) {
                kept.contains_key(name) && kept[name] == held[name] && !refs.contains_key(name)
            } else {
                let target = held[name]->Reference_0;
                &&& !kept.contains_key(name)
                &&& is_place(file, to) && snapshot_at(file, to).id == target
                    ==> refs.contains_key(name) && refs[name] == (PathView::Relative {
                    up: place.len(),
                    down: names_along(file, to),
                })
                &&& !descends(dom, id, target) ==> !refs.contains_key(name)
            }
        }),
{
    let file = subtree(dom, id);
    let paths = collected(file, Seq::empty(), Map::empty());
    places_follow_file(dom, id, place, 0);
    detaching_keeps_places(file, paths, meshes, 0, place);
    let held = dom[snapshot_at(file, place).id.value].properties;
    if held.contains_key(name) && held[name] is Reference {
        let target = held[name]->Reference_0;
        if is_place(file, to) && snapshot_at(file, to).id == target {
            collected_names_lead_to_place(file, Seq::empty(), Map::empty(), to);
            assert(Seq::<Seq<char>>::empty() + names_along(file, to) =~= names_along(file, to));
        }
        if !descends(dom, id, target) {
            intact_names_are_collected(dom, id);
            names_lead_to_descendants(dom, id, target);
        }
    }
}

/// No way down from `id` is longer than `n` instances.
pub open spec fn routes_end(dom: Map<u128, FileInstanceView>, id: Ref, n: nat) -> bool {
    forall|other: Ref, route: Seq<Ref>| #[trigger]
        is_route(dom, id, other, route) ==> route.len() <= n
}

/// The instance `id` is there, every way down from it ends, every child that an
/// instance on the way lists is there and listed once, and no instance is
/// reached in two ways.
pub open spec fn all_in_place(dom: Map<u128, FileInstanceView>, id: Ref) -> bool {
    &&& dom.contains_key(id.value)
    &&& exists|n: nat| #[trigger] routes_end(dom, id, n)
    &&& forall|parent: Ref, i: int|
        #[trigger] descends(dom, id, parent) && 0 <= i < dom[parent.value].children.len()
            ==> dom.contains_key((#[trigger] dom[parent.value].children[i]).value)
    &&& forall|parent: Ref| #[trigger]
        descends(dom, id, parent) ==> dom[parent.value].children.no_duplicates()
    &&& forall|other: Ref| #[trigger] found_once(dom, id, other)
}

proof fn lemma_top_is_reached(dom: Map<u128, FileInstanceView>, id: Ref)
    requires
        dom.contains_key(id.value),
    ensures
        is_route(dom, id, id, seq![id]),
        descends(dom, id, id),
{
    assert(is_route(dom, id, id, seq![id]));
}

proof fn lemma_reached_through_child(
    dom: Map<u128, FileInstanceView>,
    id: Ref,
    i: int,
    other: Ref,
)
    requires
        dom.contains_key(id.value),
        0 <= i < dom[id.value].children.len(),
        descends(dom, dom[id.value].children[i], other),
    ensures
        descends(dom, id, other),
{
    let route = choose|route: Seq<Ref>| is_route(dom, dom[id.value].children[i], other, route);
    longer_route(dom, id, i, other, route);
}

proof fn lemma_complete_routes_end(
    dom: Map<u128, FileInstanceView>,
    id: Ref,
    n: nat,
    other: Ref,
    route: Seq<Ref>,
)
    requires
        complete(dom, id, n),
        is_route(dom, id, other, route),
    ensures
        route.len() <= n + 1,
    decreases n,
{
    if route.len() > 1 {
        let i = route_goes_on(dom, id, other, route);
        assert(complete(dom, dom[id.value].children[i], (n - 1) as nat));
        lemma_complete_routes_end(
            dom,
            dom[id.value].children[i],
            (n - 1) as nat,
            other,
            route.skip(1),
        );
    }
}

proof fn lemma_intact_below(dom: Map<u128, FileInstanceView>, id: Ref, i: int)
    requires
        intact(dom, id),
        0 <= i < dom[id.value].children.len(),
    ensures
        intact(dom, dom[id.value].children[i]),
{
    subtree_shows_children(dom, id);
    assert(present(dom, dom[id.value].children[i]));
    assert(subtree(dom, id).children[i] == subtree(dom, dom[id.value].children[i]));
    assert(distinct_ids(subtree(dom, id).children[i]));
}

proof fn lemma_intact_on_the_way(
    dom: Map<u128, FileInstanceView>,
    id: Ref,
    other: Ref,
    route: Seq<Ref>,
)
    requires
        intact(dom, id),
        is_route(dom, id, other, route),
    ensures
        intact(dom, other),
    decreases route.len(),
{
    if route.len() > 1 {
        let i = route_goes_on(dom, id, other, route);
        lemma_intact_below(dom, id, i);
        lemma_intact_on_the_way(dom, dom[id.value].children[i], other, route.skip(1));
    }
}

proof fn lemma_intact_lists_once(dom: Map<u128, FileInstanceView>, id: Ref)
    requires
        intact(dom, id),
    ensures
        dom[id.value].children.no_duplicates(),
{
    let kids = dom[id.value].children;
    let file = subtree(dom, id);
    subtree_shows_children(dom, id);
    assert forall|i: int, k: int| 0 <= i < k < kids.len() implies kids[i] != kids[k] by {
        assert(present(dom, dom[id.value].children[i]));
        assert(present(dom, dom[id.value].children[k]));
        subtree_shows_children(dom, kids[i]);
        subtree_shows_children(dom, kids[k]);
        assert(holds_id(file.children[i], kids[i]));
        assert(holds_id(file.children[k], kids[k]));
        if kids[i] == kids[k] {
            assert(holds_id(file.children[k], kids[i]));
        }
    }
}

proof fn lemma_held_is_reached(dom: Map<u128, FileInstanceView>, id: Ref, n: nat, other: Ref)
    requires
        complete(dom, id, n),
        holds_id(generations(dom, id, n), other),
    ensures
        descends(dom, id, other),
    decreases n,
{
    let file = generations(dom, id, n);
    if other == id {
        lemma_top_is_reached(dom, id);
    } else {
        let i = choose|i: int|
            0 <= i < file.children.len() && holds_id(#[trigger] file.children[i], other);
        assert(complete(dom, dom[id.value].children[i], (n - 1) as nat));
        lemma_held_is_reached(dom, dom[id.value].children[i], (n - 1) as nat, other);
        lemma_reached_through_child(dom, id, i, other);
    }
}

proof fn lemma_in_place_is_intact(dom: Map<u128, FileInstanceView>, id: Ref, n: nat)
    requires
        all_in_place(dom, id),
        routes_end(dom, id, n),
    ensures
        intact(dom, id),
    decreases n,
{
    let kids = dom[id.value].children;
    lemma_top_is_reached(dom, id);
    assert(n >= 1);
    assert(kids.no_duplicates());
    assert forall|i: int| 0 <= i < kids.len() implies intact(dom, #[trigger] kids[i]) by {
        let child = kids[i];
        assert(dom.contains_key(dom[id.value].children[i].value));
        assert forall|other: Ref, route: Seq<Ref>| #[trigger]
            is_route(dom, child, other, route) implies route.len() <= (n - 1) as nat by {
            longer_route(dom, id, i, other, route);
            assert((seq![id] + route).len() == route.len() + 1);
        }
        assert(routes_end(dom, child, (n - 1) as nat));
        assert forall|parent: Ref| #[trigger] descends(dom, child, parent) implies descends(
            dom,
            id,
            parent,
        ) by {
            lemma_reached_through_child(dom, id, i, parent);
        }
        assert forall|other: Ref| #[trigger] found_once(dom, child, other) by {
            assert(found_once(dom, id, other));
            assert forall|one: Seq<Ref>, two: Seq<Ref>| #[trigger]
                is_route(dom, child, other, one) && #[trigger] is_route(
                    dom,
                    child,
                    other,
                    two,
                ) implies one == two by {
                longer_route(dom, id, i, other, one);
                longer_route(dom, id, i, other, two);
                assert(seq![id] + one == seq![id] + two);
                assert(one =~= (seq![id] + one).skip(1));
                assert(two =~= (seq![id] + two).skip(1));
            }
        }
        lemma_in_place_is_intact(dom, child, (n - 1) as nat);
    }
    assert forall|i: int| 0 <= i < kids.len() implies present(
        dom,
        #[trigger] dom[id.value].children[i],
    ) by {
        assert(intact(dom, kids[i]));
    }
    children_make_subtree(dom, id);
    subtree_shows_children(dom, id);
    let file = subtree(dom, id);
    assert forall|i: int, held: Ref|
        0 <= i < kids.len() && #[trigger] holds_id(file.children[i], held) implies exists|
        route: Seq<Ref>,
    | #[trigger]
        is_route(dom, kids[i], held, route) by {
        assert(intact(dom, kids[i]));
        let m = choose|m: nat| complete(dom, kids[i], m);
        lemma_held_is_reached(dom, kids[i], m, held);
        let route = choose|route: Seq<Ref>| is_route(dom, kids[i], held, route);
        assert(is_route(dom, kids[i], held, route));
    }
    assert forall|i: int| 0 <= i < file.children.len() implies distinct_ids(
        #[trigger] file.children[i],
    ) && !holds_id(file.children[i], file.id) by {
        assert(intact(dom, kids[i]));
        if holds_id(file.children[i], id) {
            let route = choose|route: Seq<Ref>| #[trigger] is_route(dom, kids[i], id, route);
            longer_route(dom, id, i, id, route);
            assert(found_once(dom, id, id));
            assert(seq![id] == seq![id] + route);
            assert((seq![id] + route).len() == 1 + route.len());
        }
    }
    assert forall|i: int, k: int, held: Ref|
        0 <= i < k < file.children.len() && #[trigger] holds_id(file.children[i], held)
            && #[trigger] holds_id(file.children[k], held) implies false by {
        let one = choose|route: Seq<Ref>| #[trigger] is_route(dom, kids[i], held, route);
        let two = choose|route: Seq<Ref>| #[trigger] is_route(dom, kids[k], held, route);
        longer_route(dom, id, i, held, one);
        longer_route(dom, id, k, held, two);
        assert(found_once(dom, id, held));
        assert(seq![id] + one == seq![id] + two);
        assert((seq![id] + one)[1] == kids[i]);
        assert((seq![id] + two)[1] == kids[k]);
    }
    assert(distinct_among(file.children));
}

/// A file can be read from an instance on if and only if everything from there
/// on is in its place.
pub proof fn readable_is_all_in_place(dom: Map<u128, FileInstanceView>, id: Ref)
    ensures
        intact(dom, id) <==> all_in_place(dom, id),
{
    if intact(dom, id) {
        let n = choose|n: nat| complete(dom, id, n);
        assert forall|other: Ref, route: Seq<Ref>| #[trigger]
            is_route(dom, id, other, route) implies route.len() <= n + 1 by {
            lemma_complete_routes_end(dom, id, n, other, route);
        }
        assert(routes_end(dom, id, n + 1));
        assert forall|parent: Ref| #[trigger] descends(dom, id, parent) implies intact(
            dom,
            parent,
        ) && dom[parent.value].children.no_duplicates() by {
            let route = choose|route: Seq<Ref>| is_route(dom, id, parent, route);
            lemma_intact_on_the_way(dom, id, parent, route);
            lemma_intact_lists_once(dom, parent);
        }
        assert forall|parent: Ref, i: int|
            #[trigger] descends(dom, id, parent) && 0 <= i < dom[parent.value].children.len()
            implies dom.contains_key((#[trigger] dom[parent.value].children[i]).value) by {
            lemma_intact_below(dom, parent, i);
            subtree_shows_children(dom, dom[parent.value].children[i]);
        }
        assert forall|other: Ref| #[trigger] found_once(dom, id, other) by {
            intact_is_found_once(dom, id, other);
        }
        subtree_shows_children(dom, id);
    }
    if all_in_place(dom, id) {
        let n = choose|n: nat| #[trigger] routes_end(dom, id, n);
        lemma_in_place_is_intact(dom, id, n);
    }
}

} // verus!
