//! How the hops towards the root of a tree behave.

use vstd::prelude::*;

use crate::model::{
    child_named, climbed, entered, level, lives_under, meets_at, ranked, shared_name,
    sole_child_named, unambiguous, well_formed, TreeView,
};
use crate::referent::{nothing, Ref};

verus! {

/// Hopping on from where some hops lead is the same as hopping all the way.
pub proof fn hops_add_up(tree: TreeView, from: Ref, first: nat, then: nat)
    requires
        climbed(tree, from, first) is Some,
    ensures
        climbed(tree, from, first + then) == climbed(
            tree,
            climbed(tree, from, first)->0,
            then,
        ),
    decreases then,
{
    if then > 0 {
        hops_add_up(tree, from, first, (then - 1) as nat);
        assert((first + then - 1) as nat == first + (then - 1) as nat);
    }
}

/// Where some hops lead nowhere, more of them do not lead anywhere either.
pub proof fn nowhere_is_final(tree: TreeView, from: Ref, first: nat, then: nat)
    requires
        climbed(tree, from, first) is None,
    ensures
        climbed(tree, from, first + then) is None,
    decreases then,
{
    if then > 0 {
        nowhere_is_final(tree, from, first, (then - 1) as nat);
        assert((first + then - 1) as nat == first + (then - 1) as nat);
    }
}

/// Every instance has a number of hops that lead to the root, with an
/// instance at every hop on the way.
proof fn lemma_root_is_reached(tree: TreeView, depth: Map<Ref, nat>, id: Ref) -> (up: nat)
    requires
        well_formed(tree),
        ranked(tree, depth),
        tree.instances.contains_key(id),
    ensures
        climbed(tree, id, up) == Some(tree.root),
        forall|less: nat|
            less <= up ==> (#[trigger] climbed(tree, id, less)) is Some
                && tree.instances.contains_key(climbed(tree, id, less)->0),
    decreases depth[id],
{
    if id == tree.root {
        0
    } else {
        let parent = tree.instances[id].parent;
        let rest = lemma_root_is_reached(tree, depth, parent);
        assert(climbed(tree, id, 0) == Some(id));
        assert(climbed(tree, id, 1) == Some(parent)) by {
            reveal_with_fuel(climbed, 2);
        }
        hops_add_up(tree, id, 1, rest);
        assert forall|less: nat| less <= 1 + rest implies (#[trigger] climbed(
            tree,
            id,
            less,
        )) is Some && tree.instances.contains_key(climbed(tree, id, less)->0) by {
            if less > 0 {
                hops_add_up(tree, id, 1, (less - 1) as nat);
                assert(1 + (less - 1) as nat == less);
            }
        }
        1 + rest
    }
}

/// Past the root there is nothing, and past that there is nowhere to go.
proof fn lemma_past_the_root(tree: TreeView, id: Ref, up: nat, more: nat)
    requires
        well_formed(tree),
        climbed(tree, id, up) == Some(tree.root),
        more > up,
    ensures
        more == up + 1 ==> climbed(tree, id, more) == Some(nothing()),
        more > up + 1 ==> climbed(tree, id, more) is None,
{
    assert(climbed(tree, id, up + 1) == Some(nothing()));
    if more > up + 1 {
        assert(climbed(tree, id, up + 2) is None);
        nowhere_is_final(tree, id, up + 2, (more - up - 2) as nat);
        assert(up + 2 + (more - up - 2) as nat == more);
    }
}

/// The number of hops to the root is the only one that leads there.
pub proof fn level_is_unique(tree: TreeView, id: Ref, up: nat)
    requires
        well_formed(tree),
        climbed(tree, id, up) == Some(tree.root),
    ensures
        level(tree, id) == up,
{
    let other = level(tree, id);
    assert(climbed(tree, id, other) == Some(tree.root));
    if other < up {
        lemma_past_the_root(tree, id, other, up);
    } else if up < other {
        lemma_past_the_root(tree, id, up, other);
    }
}

/// There is an instance at every hop up to the root, and nothing past it.
pub proof fn hops_stay_inside(tree: TreeView, id: Ref)
    requires
        well_formed(tree),
        tree.instances.contains_key(id),
    ensures
        climbed(tree, id, level(tree, id)) == Some(tree.root),
        forall|up: nat|
            up <= level(tree, id) ==> (#[trigger] climbed(tree, id, up)) is Some
                && tree.instances.contains_key(climbed(tree, id, up)->0),
        forall|up: nat|
            up > level(tree, id) ==> (#[trigger] climbed(tree, id, up)) is None || climbed(
                tree,
                id,
                up,
            ) == Some(nothing()),
{
    let depth = choose|depth: Map<Ref, nat>| #[trigger] ranked(tree, depth);
    let up = lemma_root_is_reached(tree, depth, id);
    level_is_unique(tree, id, up);
    assert forall|more: nat| more > up implies (#[trigger] climbed(tree, id, more)) is None
        || climbed(tree, id, more) == Some(nothing()) by {
        lemma_past_the_root(tree, id, up, more);
    }
}

/// Every hop towards the root leaves one hop less to go.
pub proof fn level_after_hops(tree: TreeView, id: Ref, up: nat)
    requires
        well_formed(tree),
        tree.instances.contains_key(id),
        up <= level(tree, id),
    ensures
        climbed(tree, id, up) is Some,
        tree.instances.contains_key(climbed(tree, id, up)->0),
        level(tree, climbed(tree, id, up)->0) == level(tree, id) - up,
{
    hops_stay_inside(tree, id);
    let rest = (level(tree, id) - up) as nat;
    hops_add_up(tree, id, up, rest);
    assert(up + rest == level(tree, id));
    level_is_unique(tree, climbed(tree, id, up)->0, rest);
}

/// No two numbers of hops lead to the same instance.
pub proof fn hops_are_distinct(tree: TreeView, id: Ref, one: nat, other: nat)
    requires
        well_formed(tree),
        tree.instances.contains_key(id),
        one <= level(tree, id),
        other <= level(tree, id),
        climbed(tree, id, one) == climbed(tree, id, other),
    ensures
        one == other,
{
    level_after_hops(tree, id, one);
    level_after_hops(tree, id, other);
}

/// Only the root is no hop away from the root.
pub proof fn root_is_the_only_top(tree: TreeView, id: Ref)
    requires
        well_formed(tree),
        tree.instances.contains_key(id),
    ensures
        level(tree, id) == 0 <==> id == tree.root,
{
    hops_stay_inside(tree, id);
    if id == tree.root {
        level_is_unique(tree, id, 0);
    }
}

/// Two instances of a tree always have a closest instance that both of them
/// live under, at the difference of their levels.
pub proof fn some_hops_meet(tree: TreeView, from: Ref, target: Ref) -> (up: nat)
    requires
        well_formed(tree),
        tree.instances.contains_key(from),
        tree.instances.contains_key(target),
    ensures
        meets_at(tree, from, target, up),
{
    hops_stay_inside(tree, from);
    hops_stay_inside(tree, target);
    assert(lives_under(tree, target, climbed(tree, from, level(tree, from))->0));
    lemma_first_meeting(tree, from, target, level(tree, from))
}

proof fn lemma_first_meeting(tree: TreeView, from: Ref, target: Ref, limit: nat) -> (up: nat)
    requires
        limit <= level(tree, from),
        lives_under(tree, target, climbed(tree, from, limit)->0),
    ensures
        meets_at(tree, from, target, up),
    decreases limit,
{
    if exists|less: nat|
        less < limit && lives_under(tree, target, (#[trigger] climbed(tree, from, less))->0) {
        let less = choose|less: nat|
            less < limit && lives_under(tree, target, (#[trigger] climbed(tree, from, less))->0);
        lemma_first_meeting(tree, from, target, less)
    } else {
        limit
    }
}

/// There is only one number of hops to the closest common instance, and it
/// leads from the target to the same instance as the hops that are left.
pub proof fn meeting_is_unique(tree: TreeView, from: Ref, target: Ref, up: nat)
    requires
        well_formed(tree),
        tree.instances.contains_key(from),
        tree.instances.contains_key(target),
        meets_at(tree, from, target, up),
    ensures
        up == choose|up: nat| meets_at(tree, from, target, up),
        level(tree, target) >= level(tree, from) - up,
        climbed(tree, target, (level(tree, target) - (level(tree, from) - up)) as nat)
            == climbed(tree, from, up),
{
    let other = choose|up: nat| meets_at(tree, from, target, up);
    if other < up {
        assert(!lives_under(tree, target, climbed(tree, from, other)->0));
    } else if up < other {
        assert(!lives_under(tree, target, climbed(tree, from, up)->0));
    }
    level_after_hops(tree, from, up);
    let common = climbed(tree, from, up)->0;
    let down = choose|down: nat|
        down <= level(tree, target) && #[trigger] climbed(tree, target, down) == Some(common);
    level_after_hops(tree, target, down);
}

/// A name leads to the child that alone answers to it.
pub proof fn sole_child_is_entered(tree: TreeView, at: Ref, name: Seq<char>, child: Ref)
    requires
        sole_child_named(tree, at, name, child),
    ensures
        entered(tree, at, name) == Some(child),
{
    let other = choose|other: Ref| sole_child_named(tree, at, name, other);
    assert(sole_child_named(tree, at, name, other));
    assert(child_named(tree, at, name, other));
}

/// A name that several children share leads to none of them.
pub proof fn shared_name_is_not_entered(tree: TreeView, at: Ref, name: Seq<char>)
    requires
        shared_name(tree, at, name),
    ensures
        entered(tree, at, name) is None,
{
    assert forall|child: Ref| !sole_child_named(tree, at, name, child) by {}
}

/// The name of an instance leads from its parent back to it, unless a sibling
/// shares the name.
pub proof fn unambiguous_name_leads_back(tree: TreeView, id: Ref)
    requires
        well_formed(tree),
        tree.instances.contains_key(id),
        id != tree.root,
        unambiguous(tree, id),
    ensures
        entered(tree, tree.instances[id].parent, tree.instances[id].name) == Some(id),
{
    let depth = choose|depth: Map<Ref, nat>| #[trigger] ranked(tree, depth);
    let parent = tree.instances[id].parent;
    let name = tree.instances[id].name;
    assert(child_named(tree, parent, name, id));
    sole_child_is_entered(tree, parent, name, id);
}

} // verus!
