//! What holds of describing instances and finding them again.

use vstd::prelude::*;

use crate::growth::extends;
use crate::lineage::{
    hops_add_up, hops_are_distinct, hops_stay_inside, level_after_hops, level_is_unique,
    meeting_is_unique, root_is_the_only_top, shared_name_is_not_entered, sole_child_is_entered,
    some_hops_meet, unambiguous_name_leads_back,
};
use crate::locate::dead_end_is_final;
use crate::model::{
    absolute_path, ambiguous_at, ambiguous_step, child_named, claimant, claimant_in, clear_steps,
    climbed, described, descended, level, lives_under, meets_at, names_of_path, ranked, resolved,
    start_of, steps_to, unambiguous, well_formed, TreeView,
};
use crate::ref_path::PathView;
use crate::referent::{nothing, Ref};
use crate::snapshot::MetaView;

verus! {

/// The steps down to an instance, less the last one, lead down to its parent.
proof fn lemma_steps_to_parent(tree: TreeView, target: Ref, count: nat)
    requires
        well_formed(tree),
        tree.instances.contains_key(target),
        0 < count <= level(tree, target),
    ensures
        climbed(tree, target, 1) is Some,
        steps_to(tree, target, count).drop_last() == steps_to(
            tree,
            climbed(tree, target, 1)->0,
            (count - 1) as nat,
        ),
        steps_to(tree, target, count).last() == tree.instances[target].name,
        clear_steps(tree, target, count) ==> clear_steps(
            tree,
            climbed(tree, target, 1)->0,
            (count - 1) as nat,
        ),
{
    level_after_hops(tree, target, 1);
    let parent = climbed(tree, target, 1)->0;
    let fewer = (count - 1) as nat;
    assert forall|i: int| 0 <= i < fewer implies steps_to(tree, target, count)[i] == steps_to(
        tree,
        parent,
        fewer,
    )[i] by {
        let hops = (fewer - 1 - i) as nat;
        hops_add_up(tree, target, 1, hops);
        assert(1 + hops == (count - 1 - i) as nat);
    }
    assert(steps_to(tree, target, count).drop_last() =~= steps_to(tree, parent, fewer));
    assert(climbed(tree, target, 0) == Some(target));
    if clear_steps(tree, target, count) {
        assert forall|up: nat| up < fewer implies unambiguous(
            tree,
            (#[trigger] climbed(tree, parent, up))->0,
        ) by {
            hops_add_up(tree, target, 1, up);
            assert(unambiguous(tree, climbed(tree, target, 1 + up)->0));
        }
    }
}

/// Following the steps down to an instance leads to it, as long as none of
/// them is ambiguous.
pub proof fn clear_steps_lead_down(tree: TreeView, target: Ref, count: nat)
    requires
        well_formed(tree),
        tree.instances.contains_key(target),
        count <= level(tree, target),
        clear_steps(tree, target, count),
    ensures
        climbed(tree, target, count) is Some,
        descended(tree, climbed(tree, target, count)->0, steps_to(tree, target, count)) == Some(
            target,
        ),
    decreases count,
{
    level_after_hops(tree, target, count);
    if count > 0 {
        lemma_steps_to_parent(tree, target, count);
        level_after_hops(tree, target, 1);
        let parent = climbed(tree, target, 1)->0;
        let fewer = (count - 1) as nat;
        clear_steps_lead_down(tree, parent, fewer);
        hops_add_up(tree, target, 1, fewer);
        assert(1 + fewer == count);
        assert(climbed(tree, target, 0) == Some(target));
        assert(parent == tree.instances[target].parent) by {
            reveal_with_fuel(climbed, 2);
        }
        assert(unambiguous(tree, climbed(tree, target, 0)->0));
        root_is_the_only_top(tree, target);
        unambiguous_name_leads_back(tree, target);
    }
}

/// An absolute path leads to the instance it was made for, wherever it is
/// followed from.
pub proof fn absolute_path_leads_to_target(tree: TreeView, target: Ref, from: Ref)
    requires
        well_formed(tree),
        absolute_path(tree, target) is Some,
    ensures
        resolved(tree, absolute_path(tree, target)->0, from) == Some(target),
{
    hops_stay_inside(tree, target);
    clear_steps_lead_down(tree, target, level(tree, target));
}

/// The instance that an id leads to calls itself by that id, and an id leads
/// nowhere only if no instance does.
pub proof fn id_leads_to_claimant(tree: TreeView, id: Seq<char>)
    requires
        well_formed(tree),
    ensures
        claimant(tree, id) matches Some(found) ==> tree.instances.contains_key(found)
            && tree.metas[found].id == Some(id),
        claimant(tree, id) is None ==> forall|other: Ref|
            tree.instances.contains_key(other) ==> (#[trigger] tree.metas[other]).id != Some(id),
{
    lemma_claimant_in(tree.order, tree.metas, id);
    if let Some(found) = claimant(tree, id) {
        assert(tree.order.contains(found));
    } else {
        assert forall|other: Ref| tree.instances.contains_key(other) implies (
        #[trigger] tree.metas[other]).id != Some(id) by {
            assert(tree.order.contains(other));
        }
    }
}

proof fn lemma_claimant_in(order: Seq<Ref>, metas: Map<Ref, MetaView>, id: Seq<char>)
    ensures
        claimant_in(order, metas, id) matches Some(found) ==> order.contains(found)
            && metas[found].id == Some(id),
        claimant_in(order, metas, id) is None ==> forall|other: Ref| #[trigger]
            order.contains(other) ==> metas[other].id != Some(id),
    decreases order.len(),
{
    if order.len() > 0 {
        let init = order.drop_last();
        lemma_claimant_in(init, metas, id);
        match claimant_in(init, metas, id) {
            Some(found) => {
                let k = choose|k: int| 0 <= k < init.len() && init[k] == found;
                assert(order[k] == found);
            },
            None => {
                assert forall|other: Ref| #[trigger] order.contains(other) && other
                    != order.last() implies metas[other].id != Some(id) by {
                    let k = choose|k: int| 0 <= k < order.len() && order[k] == other;
                    assert(init[k] == other);
                    assert(init.contains(other));
                }
                assert(order.contains(order.last()));
            },
        }
    }
}

/// No other instance calls itself the way `id` does.
pub open spec fn sole_claimant(tree: TreeView, id: Ref) -> bool {
    forall|other: Ref|
        tree.instances.contains_key(other) && tree.metas[id].id is Some && (
        #[trigger] tree.metas[other]).id == tree.metas[id].id ==> other == id
}

/// The path that describes an instance leads back to it, from where it was
/// described. The root does not find itself, as it has no parent to look for
/// its name in, and an id leads back only if no other instance claims it.
pub proof fn described_path_leads_to_target(tree: TreeView, from: Ref, target: Ref)
    requires
        well_formed(tree),
        described(tree, from, target) is Some,
        sole_claimant(tree, target),
        !(from == target && target == tree.root && tree.metas[target].id is None),
    ensures
        resolved(tree, described(tree, from, target)->0, from) == Some(target),
{
    if tree.metas.contains_key(target) && tree.metas[target].id is Some {
        let id = tree.metas[target].id->0;
        id_leads_to_claimant(tree, id);
        assert(tree.instances.contains_key(target));
        assert(tree.metas[target].id == Some(id));
    } else if !tree.instances.contains_key(from) {
        absolute_path_leads_to_target(tree, target, from);
    } else if from == target {
        hops_stay_inside(tree, from);
        root_is_the_only_top(tree, from);
        level_after_hops(tree, from, 1);
        assert(climbed(tree, from, 0) == Some(from));
        let parent = tree.instances[from].parent;
        assert(climbed(tree, from, 1) == Some(parent)) by {
            reveal_with_fuel(climbed, 2);
        }
        unambiguous_name_leads_back(tree, from);
        let down = seq![tree.instances[from].name];
        assert(down.drop_last() =~= Seq::empty());
        assert(descended(tree, parent, down.drop_last()) == Some(parent));
        assert(descended(tree, parent, down) == Some(from));
    } else {
        let up = some_hops_meet(tree, from, target);
        meeting_is_unique(tree, from, target, up);
        level_after_hops(tree, from, up);
        let count = (level(tree, target) - (level(tree, from) - up)) as nat;
        clear_steps_lead_down(tree, target, count);
    }
}

/// Whatever lives inside of `common` is still there after a change, with the
/// same name, the same parent and the same children. Anything else may be
/// named otherwise, moved or gone, `common` itself included.
pub open spec fn keeps_inside(before: TreeView, after: TreeView, common: Ref) -> bool {
    &&& after.instances.contains_key(common)
    &&& after.instances[common].children == before.instances[common].children
    &&& forall|id: Ref|
        before.instances.contains_key(id) && id != common && lives_under(before, id, common) ==> {
            &&& after.instances.contains_key(id)
            &&& (#[trigger] after.instances[id]).name == before.instances[id].name
            &&& after.instances[id].parent == before.instances[id].parent
            &&& after.instances[id].children == before.instances[id].children
        }
}

/// A child of something that lives under an instance lives inside of it too.
proof fn lemma_child_lives_inside(tree: TreeView, at: Ref, up: nat, child: Ref)
    requires
        well_formed(tree),
        tree.instances.contains_key(at),
        up <= level(tree, at),
        tree.instances[at].children.contains(child),
    ensures
        tree.instances.contains_key(child),
        lives_under(tree, child, climbed(tree, at, up)->0),
        child != climbed(tree, at, up)->0,
{
    let depth = choose|depth: Map<Ref, nat>| #[trigger] ranked(tree, depth);
    let k = choose|k: int|
        0 <= k < tree.instances[at].children.len() && tree.instances[at].children[k] == child;
    assert(tree.instances.contains_key(tree.instances[at].children[k]));
    assert(climbed(tree, child, 0) == Some(child));
    assert(climbed(tree, child, 1) == Some(at)) by {
        reveal_with_fuel(climbed, 2);
    }
    hops_stay_inside(tree, at);
    hops_add_up(tree, child, 1, level(tree, at));
    level_is_unique(tree, child, 1 + level(tree, at));
    hops_add_up(tree, child, 1, up);
    level_after_hops(tree, at, up);
}

proof fn lemma_hops_hold(before: TreeView, after: TreeView, from: Ref, top: nat, up: nat)
    requires
        well_formed(before),
        before.instances.contains_key(from),
        up <= top <= level(before, from),
        keeps_inside(before, after, climbed(before, from, top)->0),
    ensures
        climbed(after, from, up) == climbed(before, from, up),
    decreases up,
{
    if up > 0 {
        let less = (up - 1) as nat;
        let common = climbed(before, from, top)->0;
        lemma_hops_hold(before, after, from, top, less);
        hops_stay_inside(before, from);
        let at = climbed(before, from, less)->0;
        level_after_hops(before, from, less);
        hops_add_up(before, from, less, (top - less) as nat);
        assert(less + (top - less) as nat == top);
        assert(climbed(before, at, (top - less) as nat) == Some(common));
        assert(lives_under(before, at, common));
        if at == common {
            hops_are_distinct(before, from, less, top);
        }
        assert(after.instances[at].parent == before.instances[at].parent);
    }
}

proof fn lemma_steps_hold(before: TreeView, after: TreeView, target: Ref, count: nat)
    requires
        well_formed(before),
        before.instances.contains_key(target),
        count <= level(before, target),
        clear_steps(before, target, count),
        keeps_inside(before, after, climbed(before, target, count)->0),
    ensures
        descended(
            after,
            climbed(before, target, count)->0,
            steps_to(before, target, count),
        ) == Some(target),
    decreases count,
{
    if count > 0 {
        let common = climbed(before, target, count)->0;
        lemma_steps_to_parent(before, target, count);
        level_after_hops(before, target, 1);
        let parent = climbed(before, target, 1)->0;
        let fewer = (count - 1) as nat;
        hops_add_up(before, target, 1, fewer);
        assert(1 + fewer == count);
        level_after_hops(before, target, count);
        assert(climbed(before, parent, fewer) == Some(common));
        lemma_steps_hold(before, after, parent, fewer);
        assert(climbed(before, target, 0) == Some(target));
        assert(parent == before.instances[target].parent) by {
            reveal_with_fuel(climbed, 2);
        }
        assert(unambiguous(before, climbed(before, target, 0)->0));
        root_is_the_only_top(before, target);
        let depth = choose|depth: Map<Ref, nat>| #[trigger] ranked(before, depth);
        let name = before.instances[target].name;
        if parent != common {
            level_after_hops(before, parent, fewer);
            assert(lives_under(before, parent, common));
        }
        assert(after.instances.contains_key(parent));
        assert(after.instances[parent].children == before.instances[parent].children);
        lemma_child_lives_inside(before, parent, fewer, target);
        assert(before.instances[parent].children.contains(target));
        assert(lives_under(before, target, common));
        assert(after.instances[target].name == name);
        assert(after.instances.contains_key(target));
        assert(child_named(after, parent, name, target));
        assert forall|other: Ref| #[trigger] child_named(after, parent, name, other) implies other
            == target by {
            lemma_child_lives_inside(before, parent, fewer, other);
            assert(child_named(before, parent, name, other));
        }
        sole_child_is_entered(after, parent, name, target);
    } else {
        assert(climbed(before, target, 0) == Some(target));
    }
}

/// The instance that the relative path from `from` to `target` climbs to: the
/// closest one that both of them live under, or the parent where an instance
/// is described to itself.
pub open spec fn anchor(tree: TreeView, from: Ref, target: Ref) -> Ref {
    if from == target {
        tree.instances[from].parent
    } else {
        climbed(tree, from, choose|up: nat| meets_at(tree, from, target, up))->0
    }
}

/// Moving or renaming anything above the closest instance that two instances
/// live under, or that instance itself, does not turn the path between them
/// into a dangling one.
pub proof fn path_survives_changes_above(before: TreeView, after: TreeView, from: Ref, target: Ref)
    requires
        well_formed(before),
        !after.instances.contains_key(nothing()),
        before.instances.contains_key(from),
        described(before, from, target) matches Some(path) && path is Relative,
        keeps_inside(before, after, anchor(before, from, target)),
    ensures
        resolved(after, described(before, from, target)->0, from) == Some(target),
{
    if from == target {
        let parent = before.instances[from].parent;
        hops_stay_inside(before, from);
        root_is_the_only_top(before, from);
        level_after_hops(before, from, 1);
        assert(climbed(before, from, 0) == Some(from));
        assert(climbed(before, from, 1) == Some(parent)) by {
            reveal_with_fuel(climbed, 2);
        }
        assert(clear_steps(before, target, 1));
        assert(steps_to(before, target, 1) =~= seq![before.instances[from].name]);
        lemma_hops_hold(before, after, from, 1, 1);
        lemma_steps_hold(before, after, target, 1);
    } else {
        let up = some_hops_meet(before, from, target);
        meeting_is_unique(before, from, target, up);
        level_after_hops(before, from, up);
        let count = (level(before, target) - (level(before, from) - up)) as nat;
        lemma_hops_hold(before, after, from, up, up);
        lemma_steps_hold(before, after, target, count);
    }
}

proof fn lemma_clear_steps_hold(before: TreeView, after: TreeView, target: Ref, count: nat)
    requires
        well_formed(before),
        before.instances.contains_key(target),
        count <= level(before, target),
        clear_steps(before, target, count),
        keeps_inside(before, after, climbed(before, target, count)->0),
    ensures
        clear_steps(after, target, count),
        steps_to(after, target, count) == steps_to(before, target, count),
{
    let common = climbed(before, target, count)->0;
    hops_stay_inside(before, target);
    let depth = choose|depth: Map<Ref, nat>| #[trigger] ranked(before, depth);
    assert forall|up: nat| up < count implies ({
        let at = (#[trigger] climbed(before, target, up))->0;
        &&& climbed(after, target, up) == Some(at)
        &&& after.instances[at].name == before.instances[at].name
        &&& unambiguous(after, at)
    }) by {
        let at = climbed(before, target, up)->0;
        lemma_hops_hold(before, after, target, count, up);
        level_after_hops(before, target, up);
        let rest = (count - up) as nat;
        hops_add_up(before, target, up, rest);
        assert(up + rest == count);
        assert(climbed(before, at, rest) == Some(common));
        assert(lives_under(before, at, common));
        if at == common {
            hops_are_distinct(before, target, up, count);
        }
        let parent = before.instances[at].parent;
        let fewer = (rest - 1) as nat;
        level_after_hops(before, at, 1);
        assert(climbed(before, at, 0) == Some(at));
        assert(climbed(before, at, 1) == Some(parent)) by {
            reveal_with_fuel(climbed, 2);
        }
        hops_add_up(before, at, 1, fewer);
        assert(1 + fewer == rest);
        if parent != common {
            level_after_hops(before, parent, fewer);
            assert(lives_under(before, parent, common));
        }
        let name = before.instances[at].name;
        assert forall|other: Ref| #[trigger] child_named(after, parent, name, other) implies other
            == at by {
            lemma_child_lives_inside(before, parent, fewer, other);
            assert(child_named(before, parent, name, other));
        }
    }
    assert forall|up: nat| up < count implies unambiguous(
        after,
        (#[trigger] climbed(after, target, up))->0,
    ) by {
        assert(climbed(before, target, up) is Some);
    }
    assert forall|i: int| 0 <= i < count implies steps_to(after, target, count)[i] == steps_to(
        before,
        target,
        count,
    )[i] by {
        assert(climbed(before, target, (count - 1 - i) as nat) is Some);
    }
    assert(steps_to(after, target, count) =~= steps_to(before, target, count));
}

/// Describing an instance again after something above the closest instance
/// that both live under was moved or renamed gives the very same path.
pub proof fn description_survives_changes_above(
    before: TreeView,
    after: TreeView,
    from: Ref,
    target: Ref,
)
    requires
        well_formed(before),
        well_formed(after),
        before.instances.contains_key(from),
        after.instances.contains_key(from),
        after.instances.contains_key(target),
        described(before, from, target) matches Some(path) && path is Relative,
        after.metas[target].id is None,
        keeps_inside(before, after, anchor(before, from, target)),
    ensures
        described(after, from, target) == described(before, from, target),
{
    if from == target {
        hops_stay_inside(before, from);
        root_is_the_only_top(before, from);
        level_after_hops(before, from, 1);
        assert(climbed(before, from, 0) == Some(from));
        assert(climbed(after, from, 0) == Some(from));
        let parent = before.instances[from].parent;
        assert(climbed(before, from, 1) == Some(parent)) by {
            reveal_with_fuel(climbed, 2);
        }
        assert(clear_steps(before, target, 1));
        lemma_clear_steps_hold(before, after, target, 1);
        assert(unambiguous(after, climbed(after, target, 0)->0));
        assert(steps_to(before, target, 1)[0] == before.instances[from].name);
        assert(steps_to(after, target, 1)[0] == after.instances[from].name);
    } else {
        let up = some_hops_meet(before, from, target);
        meeting_is_unique(before, from, target, up);
        level_after_hops(before, from, up);
        let common = climbed(before, from, up)->0;
        let count = (level(before, target) - (level(before, from) - up)) as nat;
        lemma_clear_steps_hold(before, after, target, count);
        lemma_hops_hold(before, after, from, up, up);
        lemma_hops_hold(before, after, target, count, count);
        hops_stay_inside(after, from);
        hops_stay_inside(after, target);
        assert(climbed(after, from, up) == Some(common));
        assert(climbed(after, target, count) == Some(common));
        assert(up <= level(after, from));
        assert(count <= level(after, target));
        level_after_hops(after, from, up);
        level_after_hops(after, target, count);
        assert(lives_under(after, target, common));
        assert forall|less: nat| less < up implies !lives_under(
            after,
            target,
            (#[trigger] climbed(after, from, less))->0,
        ) by {
            let at = climbed(after, from, less)->0;
            lemma_hops_hold(before, after, from, up, less);
            level_after_hops(after, from, less);
            if lives_under(after, target, at) {
                let k = choose|k: nat|
                    k <= level(after, target) && #[trigger] climbed(after, target, k) == Some(at);
                level_after_hops(after, target, k);
                assert(k < count);
                lemma_hops_hold(before, after, target, count, k);
                assert(climbed(before, target, k) == Some(at));
                assert(lives_under(before, target, climbed(before, from, less)->0));
            }
        }
        assert(meets_at(after, from, target, up));
        meeting_is_unique(after, from, target, up);
    }
}

/// An id keeps leading to the instance that claims it, whatever else about the
/// tree changes: the instance may be renamed or moved, and so may the one that
/// holds the reference.
pub proof fn id_survives_any_change(
    before: TreeView,
    after: TreeView,
    from: Ref,
    target: Ref,
    holder: Ref,
)
    requires
        well_formed(after),
        described(before, from, target) matches Some(path) && path is Id,
        after.instances.contains_key(target),
        after.metas[target].id == before.metas[target].id,
        sole_claimant(after, target),
    ensures
        resolved(after, described(before, from, target)->0, holder) == Some(target),
{
    id_leads_to_claimant(after, before.metas[target].id->0);
    assert(after.metas[target].id is Some);
}

/// A path leads nowhere where more than one instance answers to one of its
/// names, and that happens at one of them at most.
pub proof fn ambiguous_path_leads_nowhere(
    tree: TreeView,
    path: PathView,
    from: Ref,
    step: int,
    other: int,
)
    requires
        ambiguous_step(tree, path, from, step),
    ensures
        resolved(tree, path, from) is None,
        ambiguous_step(tree, path, from, other) ==> other == step,
{
    let at = start_of(tree, path, from)->0;
    let names = names_of_path(path);
    lemma_stuck(tree, at, names, step);
    dead_end_is_final(tree, at, names, step + 1);
    if ambiguous_step(tree, path, from, other) {
        lemma_stuck(tree, at, names, other);
        if step < other {
            assert(names.take(other).take(step + 1) =~= names.take(step + 1));
            dead_end_is_final(tree, at, names.take(other), step + 1);
        } else if other < step {
            assert(names.take(step).take(other + 1) =~= names.take(other + 1));
            dead_end_is_final(tree, at, names.take(step), other + 1);
        }
    }
}

proof fn lemma_stuck(tree: TreeView, at: Ref, names: Seq<Seq<char>>, step: int)
    requires
        ambiguous_at(tree, at, names, step),
    ensures
        descended(tree, at, names.take(step + 1)) is None,
{
    let reached = descended(tree, at, names.take(step))->0;
    assert(names.take(step + 1).drop_last() =~= names.take(step));
    shared_name_is_not_entered(tree, reached, names[step]);
}

/// An instance that shares its name with a sibling cannot be described to
/// anything outside of it, unless it has an id.
pub proof fn shared_name_is_not_described(tree: TreeView, from: Ref, target: Ref)
    requires
        well_formed(tree),
        tree.instances.contains_key(from),
        tree.instances.contains_key(target),
        tree.metas[target].id is None,
        !unambiguous(tree, target),
        from == target || !lives_under(tree, from, target),
    ensures
        described(tree, from, target) is None,
{
    if from != target {
        let up = some_hops_meet(tree, from, target);
        meeting_is_unique(tree, from, target, up);
        level_after_hops(tree, from, up);
        assert(climbed(tree, target, 0) == Some(target));
        let count = (level(tree, target) - (level(tree, from) - up)) as nat;
        if count == 0 {
            assert(lives_under(tree, from, target));
        }
    }
}

proof fn lemma_hops_while_growing(before: TreeView, after: TreeView, parent: Ref, id: Ref, up: nat)
    requires
        well_formed(before),
        extends(before, after, parent),
        before.instances.contains_key(id),
        up <= level(before, id),
    ensures
        climbed(after, id, up) == climbed(before, id, up),
    decreases up,
{
    if up > 0 {
        lemma_hops_while_growing(before, after, parent, id, (up - 1) as nat);
        level_after_hops(before, id, (up - 1) as nat);
    }
}

/// An absolute path keeps leading to its target while the tree grows, from
/// wherever it is followed, as long as nothing on the way is given a namesake.
pub proof fn absolute_path_survives_growth(
    before: TreeView,
    after: TreeView,
    parent: Ref,
    target: Ref,
    holder: Ref,
)
    requires
        well_formed(before),
        well_formed(after),
        extends(before, after, parent),
        absolute_path(before, target) is Some,
        clear_steps(after, target, level(before, target)),
    ensures
        resolved(after, absolute_path(before, target)->0, holder) == Some(target),
{
    let count = level(before, target);
    hops_stay_inside(before, target);
    assert forall|up: nat| up <= count implies #[trigger] climbed(after, target, up) == climbed(
        before,
        target,
        up,
    ) by {
        lemma_hops_while_growing(before, after, parent, target, up);
    }
    level_is_unique(after, target, count);
    assert(after.instances.contains_key(target));
    assert forall|i: int| 0 <= i < count implies steps_to(after, target, count)[i] == steps_to(
        before,
        target,
        count,
    )[i] by {
        let up = (count - 1 - i) as nat;
        assert(climbed(after, target, up) == climbed(before, target, up));
        assert(before.instances.contains_key(climbed(before, target, up)->0));
    }
    assert(steps_to(after, target, count) =~= steps_to(before, target, count));
    absolute_path_leads_to_target(after, target, holder);
}

} // verus!
