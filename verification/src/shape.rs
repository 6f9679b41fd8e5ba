//! What paths lead to depends on the shape of a tree alone.

use vstd::prelude::*;

use crate::model::{
    child_named, climbed, descended, entered, holders_in, resolved, sole_child_named, TreeView,
};
use crate::ref_path::PathView;
use crate::referent::Ref;
use crate::snapshot::MetaView;

verus! {

/// The trees differ in the properties of their instances at most.
pub open spec fn same_shape(one: TreeView, other: TreeView) -> bool {
    &&& one.root == other.root
    &&& one.order == other.order
    &&& one.metas == other.metas
    &&& forall|id: Ref| #[trigger]
        one.instances.contains_key(id) <==> #[trigger] other.instances.contains_key(id)
    &&& forall|id: Ref| #[trigger]
        one.instances.contains_key(id) ==> {
            &&& one.instances[id].name == other.instances[id].name
            &&& one.instances[id].parent == other.instances[id].parent
            &&& one.instances[id].children == other.instances[id].children
        }
}

proof fn lemma_same_hops(one: TreeView, other: TreeView, from: Ref, up: nat)
    requires
        same_shape(one, other),
    ensures
        climbed(one, from, up) == climbed(other, from, up),
    decreases up,
{
    if up > 0 {
        lemma_same_hops(one, other, from, (up - 1) as nat);
        if let Some(at) = climbed(one, from, (up - 1) as nat) {
            assert(one.instances.contains_key(at) <==> other.instances.contains_key(at));
        }
    }
}

proof fn lemma_same_step(one: TreeView, other: TreeView, at: Ref, name: Seq<char>)
    requires
        same_shape(one, other),
    ensures
        entered(one, at, name) == entered(other, at, name),
{
    assert forall|child: Ref|
        child_named(one, at, name, child) == child_named(other, at, name, child) by {
        assert(one.instances.contains_key(at) <==> other.instances.contains_key(at));
        assert(one.instances.contains_key(child) <==> other.instances.contains_key(child));
    }
    assert forall|child: Ref|
        sole_child_named(one, at, name, child) == sole_child_named(other, at, name, child) by {
        if sole_child_named(one, at, name, child) {
            assert forall|any: Ref| #[trigger] child_named(other, at, name, any) implies any
                == child by {
                assert(child_named(one, at, name, any));
            }
        }
        if sole_child_named(other, at, name, child) {
            assert forall|any: Ref| #[trigger] child_named(one, at, name, any) implies any
                == child by {
                assert(child_named(other, at, name, any));
            }
        }
    }
    if exists|child: Ref| sole_child_named(one, at, name, child) {
        let a = choose|child: Ref| sole_child_named(one, at, name, child);
        assert(sole_child_named(other, at, name, a));
        let b = choose|child: Ref| sole_child_named(other, at, name, child);
        assert(child_named(other, at, name, b));
    } else if exists|child: Ref| sole_child_named(other, at, name, child) {
        let b = choose|child: Ref| sole_child_named(other, at, name, child);
        assert(sole_child_named(one, at, name, b));
    }
}

proof fn lemma_same_steps(one: TreeView, other: TreeView, at: Ref, names: Seq<Seq<char>>)
    requires
        same_shape(one, other),
    ensures
        descended(one, at, names) == descended(other, at, names),
    decreases names.len(),
{
    if names.len() > 0 {
        lemma_same_steps(one, other, at, names.drop_last());
        if let Some(last) = descended(one, at, names.drop_last()) {
            lemma_same_step(one, other, last, names.last());
        }
    }
}

/// A path leads to the same instance in trees of the same shape.
pub proof fn paths_follow_shape(one: TreeView, other: TreeView, path: PathView, from: Ref)
    requires
        same_shape(one, other),
    ensures
        resolved(one, path, from) == resolved(other, path, from),
{
    match path {
        PathView::Id(_) => {},
        PathView::Absolute(down) => {
            lemma_same_steps(one, other, one.root, down);
        },
        PathView::Relative { up, down } => {
            lemma_same_hops(one, other, from, up);
            if let Some(at) = climbed(one, from, up) {
                lemma_same_steps(one, other, at, down);
            }
        },
    }
}

/// The holders of references are those instances that some path is known of,
/// each of them once.
pub proof fn holders_hold_paths(order: Seq<Ref>, metas: Map<Ref, MetaView>)
    requires
        order.no_duplicates(),
    ensures
        holders_in(order, metas).no_duplicates(),
        forall|id: Ref| #[trigger]
            holders_in(order, metas).contains(id) <==> order.contains(id)
                && metas[id].refs.dom() != Set::<Seq<char>>::empty(),
    decreases order.len(),
{
    if order.len() > 0 {
        let init = order.drop_last();
        let last = order.last();
        let found = holders_in(order, metas);
        let before = holders_in(init, metas);
        holders_hold_paths(init, metas);
        assert(!init.contains(last));
        assert(!before.contains(last));
        assert forall|id: Ref| order.contains(id) <==> init.contains(id) || id == last by {
            if order.contains(id) {
                let k = choose|k: int| 0 <= k < order.len() && order[k] == id;
                if k < init.len() {
                    assert(init[k] == id);
                }
            }
            if init.contains(id) {
                let k = choose|k: int| 0 <= k < init.len() && init[k] == id;
                assert(order[k] == id);
            }
            assert(order[order.len() - 1] == last);
        }
        assert forall|id: Ref| #[trigger] found.contains(id) <==> order.contains(id)
            && metas[id].refs.dom() != Set::<Seq<char>>::empty() by {
            if found != before {
                assert(found == before.push(last));
                if found.contains(id) {
                    let k = choose|k: int| 0 <= k < found.len() && found[k] == id;
                    if k < before.len() {
                        assert(before[k] == id);
                        assert(before.contains(id));
                    }
                }
                if before.contains(id) {
                    let k = choose|k: int| 0 <= k < before.len() && before[k] == id;
                    assert(found[k] == id);
                }
                assert(found[before.len() as int] == last);
            }
            assert(before.contains(id) <==> init.contains(id) && metas[id].refs.dom()
                != Set::<Seq<char>>::empty());
        }
    }
}

} // verus!
