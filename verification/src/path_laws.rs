//! Where a path leads, step by step, and which path describes an instance.

use vstd::prelude::*;

use crate::lineage::{
    hops_add_up, hops_stay_inside, level_after_hops, level_is_unique, meeting_is_unique,
    sole_child_is_entered,
};
use crate::model::{
    absolute_path, ambiguous_step, child_named, claimant, claimant_in, clear_steps, climbed,
    described, descended, entered, level, lives_under, meets_at, names_of_path, ranked, resolved,
    shared_name, sole_child_named, steps_to, unambiguous, well_formed, TreeView,
};
use crate::ref_path::PathView;
use crate::referent::{nothing, Ref};
use crate::snapshot::MetaView;

verus! {

/// The child at `i` is the only one of its siblings that answers to `name`.
pub open spec fn answers_alone(tree: TreeView, at: Ref, name: Seq<char>, i: int) -> bool {
    let kids = tree.instances[at].children;
    &&& tree.instances.contains_key(at)
    &&& 0 <= i < kids.len()
    &&& tree.instances[kids[i]].name == name
    &&& forall|k: int|
        0 <= k < kids.len() && (#[trigger] tree.instances[kids[k]]).name == name ==> k == i
}

proof fn lemma_entered(tree: TreeView, at: Ref, name: Seq<char>, child: Ref)
    requires
        well_formed(tree),
    ensures
        entered(tree, at, name) == Some(child) <==> exists|i: int| #[trigger]
            answers_alone(tree, at, name, i) && tree.instances[at].children[i] == child,
{
    let kids = tree.instances[at].children;
    let depth = choose|depth: Map<Ref, nat>| #[trigger] ranked(tree, depth);
    if entered(tree, at, name) == Some(child) {
        assert(sole_child_named(tree, at, name, child));
        let i = choose|i: int| 0 <= i < kids.len() && kids[i] == child;
        assert forall|k: int|
            0 <= k < kids.len() && (#[trigger] tree.instances[kids[k]]).name == name implies k
            == i by {
            assert(tree.instances.contains_key(tree.instances[at].children[k]));
            assert(child_named(tree, at, name, kids[k]));
        }
        assert(answers_alone(tree, at, name, i));
    }
    if exists|i: int| #[trigger]
        answers_alone(tree, at, name, i) && tree.instances[at].children[i] == child {
        let i = choose|i: int| #[trigger]
            answers_alone(tree, at, name, i) && tree.instances[at].children[i] == child;
        assert(tree.instances.contains_key(tree.instances[at].children[i]));
        assert(child_named(tree, at, name, child));
        assert forall|other: Ref| #[trigger] child_named(tree, at, name, other) implies other
            == child by {
            let k = choose|k: int| 0 <= k < kids.len() && kids[k] == other;
            assert(tree.instances[kids[k]].name == name);
        }
        sole_child_is_entered(tree, at, name, child);
    }
}

/// A path without hops and names leads to the instance that holds it. One more
/// hop is made from the parent, and only an instance has one.
pub proof fn hops_lead_to_parents(tree: TreeView, from: Ref, up: nat, down: Seq<Seq<char>>)
    requires
        well_formed(tree),
    ensures
        from != nothing() ==> resolved(
            tree,
            PathView::Relative { up: 0, down: Seq::empty() },
            from,
        ) == Some(from),
        tree.instances.contains_key(from) ==> resolved(
            tree,
            PathView::Relative { up: up + 1, down },
            from,
        ) == resolved(tree, PathView::Relative { up, down }, tree.instances[from].parent),
        !tree.instances.contains_key(from) ==> resolved(
            tree,
            PathView::Relative { up: up + 1, down },
            from,
        ) is None,
        resolved(tree, PathView::Relative { up, down }, nothing()) is None,
{
    assert(climbed(tree, from, 0) == Some(from));
    assert(climbed(tree, from, 1) == if tree.instances.contains_key(from) {
        Some(tree.instances[from].parent)
    } else {
        None
    }) by {
        reveal_with_fuel(climbed, 2);
    }
    if tree.instances.contains_key(from) {
        hops_add_up(tree, from, 1, up);
        assert(1 + up == up + 1);
    } else {
        crate::lineage::nowhere_is_final(tree, from, 1, up);
        assert(1 + up == up + 1);
    }
    if up > 0 {
        assert(climbed(tree, nothing(), 0) == Some(nothing()));
        assert(climbed(tree, nothing(), 1) is None) by {
            reveal_with_fuel(climbed, 2);
        }
        crate::lineage::nowhere_is_final(tree, nothing(), 1, (up - 1) as nat);
        assert(1 + (up - 1) as nat == up);
    }
}

/// One more name leads on to the only child that answers to it, and nowhere if
/// there is no such child or more than one.
pub proof fn names_lead_to_only_children(
    tree: TreeView,
    from: Ref,
    up: nat,
    down: Seq<Seq<char>>,
    name: Seq<char>,
    child: Ref,
)
    requires
        well_formed(tree),
    ensures
        resolved(tree, PathView::Relative { up, down: down.push(name) }, from) == Some(child)
            <==> exists|i: int|
            resolved(tree, PathView::Relative { up, down }, from) is Some && #[trigger]
                answers_alone(
                tree,
                resolved(tree, PathView::Relative { up, down }, from)->0,
                name,
                i,
            ) && tree.instances[resolved(tree, PathView::Relative { up, down }, from)->0].children[i]
                == child,
{
    let more = down.push(name);
    assert(more.drop_last() =~= down);
    assert(more.last() == name);
    if let Some(at) = resolved(tree, PathView::Relative { up, down }, from) {
        lemma_entered(tree, at, name, child);
    }
}

/// An absolute path leads wherever it leads from the root without any hop, no
/// matter what holds it.
pub proof fn absolute_paths_begin_at_root(
    tree: TreeView,
    down: Seq<Seq<char>>,
    from: Ref,
)
    requires
        well_formed(tree),
    ensures
        resolved(tree, PathView::Absolute(down), from) == resolved(
            tree,
            PathView::Relative { up: 0, down },
            tree.root,
        ),
{
    assert(climbed(tree, tree.root, 0) == Some(tree.root));
}

/// An id leads to the first instance added that goes by it, and to nothing only
/// if none does.
pub proof fn ids_lead_to_first_claimant(
    tree: TreeView,
    id: Seq<char>,
    from: Ref,
    first: int,
)
    requires
        well_formed(tree),
    ensures
        0 <= first < tree.order.len() && tree.metas[tree.order[first]].id == Some(id) && (forall|
            k: int,
        |
            0 <= k < first ==> (#[trigger] tree.metas[tree.order[k]]).id != Some(id)) ==> resolved(
            tree,
            PathView::Id(id),
            from,
        ) == Some(tree.order[first]),
        (forall|k: int|
            0 <= k < tree.order.len() ==> (#[trigger] tree.metas[tree.order[k]]).id != Some(id))
            ==> resolved(tree, PathView::Id(id), from) is None,
        claimant(tree, id) == resolved(tree, PathView::Id(id), from),
{
    if 0 <= first < tree.order.len() && tree.metas[tree.order[first]].id == Some(id) && forall|
        k: int,
    |
        0 <= k < first ==> (#[trigger] tree.metas[tree.order[k]]).id != Some(id) {
        lemma_first_claimant(tree.order, tree.metas, id, first);
    }
    if forall|k: int|
        0 <= k < tree.order.len() ==> (#[trigger] tree.metas[tree.order[k]]).id != Some(id) {
        lemma_no_claimant(tree.order, tree.metas, id);
    }
}

proof fn lemma_no_claimant(order: Seq<Ref>, metas: Map<Ref, MetaView>, id: Seq<char>)
    requires
        forall|k: int| 0 <= k < order.len() ==> (#[trigger] metas[order[k]]).id != Some(id),
    ensures
        claimant_in(order, metas, id) is None,
    decreases order.len(),
{
    if order.len() > 0 {
        let init = order.drop_last();
        assert forall|k: int| 0 <= k < init.len() implies (#[trigger] metas[init[k]]).id != Some(
            id,
        ) by {
            assert(metas[order[k]].id != Some(id));
        }
        lemma_no_claimant(init, metas, id);
        assert(metas[order[order.len() - 1]].id != Some(id));
    }
}

proof fn lemma_first_claimant(
    order: Seq<Ref>,
    metas: Map<Ref, MetaView>,
    id: Seq<char>,
    first: int,
)
    requires
        0 <= first < order.len(),
        metas[order[first]].id == Some(id),
        forall|k: int| 0 <= k < first ==> (#[trigger] metas[order[k]]).id != Some(id),
    ensures
        claimant_in(order, metas, id) == Some(order[first]),
    decreases order.len(),
{
    let init = order.drop_last();
    if first < order.len() - 1 {
        assert forall|k: int| 0 <= k < first implies (#[trigger] metas[init[k]]).id != Some(id) by {
            assert(metas[order[k]].id != Some(id));
        }
        lemma_first_claimant(init, metas, id, first);
    } else {
        assert forall|k: int| 0 <= k < init.len() implies (#[trigger] metas[init[k]]).id != Some(
            id,
        ) by {
            assert(metas[order[k]].id != Some(id));
        }
        lemma_no_claimant(init, metas, id);
    }
}

/// A path is ambiguous at the first of its names that more than one child
/// answers to, of the instance that the names before it lead to.
pub proof fn ambiguity_is_two_children_of_one_name(
    tree: TreeView,
    from: Ref,
    up: nat,
    down: Seq<Seq<char>>,
    step: int,
)
    requires
        well_formed(tree),
        0 <= step < down.len(),
    ensures
        ambiguous_step(tree, PathView::Relative { up, down }, from, step) <==> (resolved(
            tree,
            PathView::Relative { up, down: down.take(step) },
            from,
        ) matches Some(at) && tree.instances.contains_key(at) && exists|i: int, k: int|
            0 <= i < k < tree.instances[at].children.len() && (
            #[trigger] tree.instances[tree.instances[at].children[i]]).name == down[step] && (
            #[trigger] tree.instances[tree.instances[at].children[k]]).name == down[step]),
        ambiguous_step(tree, PathView::Absolute(down), from, step) == ambiguous_step(
            tree,
            PathView::Relative { up: 0, down },
            tree.root,
            step,
        ),
{
    let depth = choose|depth: Map<Ref, nat>| #[trigger] ranked(tree, depth);
    assert(climbed(tree, tree.root, 0) == Some(tree.root));
    if let Some(at) = resolved(tree, PathView::Relative { up, down: down.take(step) }, from) {
        let kids = tree.instances[at].children;
        let name = down[step];
        if shared_name(tree, at, name) {
            let (one, other) = choose|one: Ref, other: Ref|
                one != other && #[trigger] child_named(tree, at, name, one) && #[trigger]
                    child_named(tree, at, name, other);
            let a = choose|a: int| 0 <= a < kids.len() && kids[a] == one;
            let b = choose|b: int| 0 <= b < kids.len() && kids[b] == other;
            let (i, k) = if a < b {
                (a, b)
            } else {
                (b, a)
            };
            assert(tree.instances[tree.instances[at].children[i]].name == name);
            assert(tree.instances[tree.instances[at].children[k]].name == name);
        }
        if tree.instances.contains_key(at) && exists|i: int, k: int|
            0 <= i < k < kids.len() && (#[trigger] tree.instances[kids[i]]).name == name && (
            #[trigger] tree.instances[kids[k]]).name == name {
            let (i, k) = choose|i: int, k: int|
                0 <= i < k < kids.len() && (#[trigger] tree.instances[kids[i]]).name == name && (
                #[trigger] tree.instances[kids[k]]).name == name;
            assert(tree.instances.contains_key(tree.instances[at].children[i]));
            assert(tree.instances.contains_key(tree.instances[at].children[k]));
            assert(kids.no_duplicates());
            assert(kids[i] != kids[k]);
            assert(child_named(tree, at, name, kids[i]));
            assert(child_named(tree, at, name, kids[k]));
        }
    }
}

/// Only a name of a path can be ambiguous, and an id is none.
pub proof fn only_names_are_ambiguous(
    tree: TreeView,
    from: Ref,
    id: Seq<char>,
    up: nat,
    down: Seq<Seq<char>>,
    step: int,
)
    ensures
        names_of_path(PathView::Absolute(down)) == down,
        names_of_path(PathView::Relative { up, down }) == down,
        !ambiguous_step(tree, PathView::Id(id), from, step),
        ambiguous_step(tree, PathView::Absolute(down), from, step) ==> 0 <= step < down.len(),
        ambiguous_step(tree, PathView::Relative { up, down }, from, step) ==> 0 <= step
            < down.len(),
{
}

/// The referent that points at nothing is zero, and is part of no tree.
pub proof fn nothing_is_zero(tree: TreeView)
    requires
        well_formed(tree),
    ensures
        nothing().value == 0,
        !tree.instances.contains_key(nothing()),
        tree.instances.contains_key(tree.root),
        tree.instances[tree.root].parent == nothing(),
{
}

/// An instance, its parent, the parent of that and so on, ending anywhere.
pub open spec fn is_line(tree: TreeView, line: Seq<Ref>) -> bool {
    &&& line.len() > 0
    &&& forall|k: int| 0 <= k < line.len() ==> tree.instances.contains_key(#[trigger] line[k])
    &&& forall|k: int, l: int|
        0 <= k < line.len() && l == k + 1 && l < line.len() ==> tree.instances[
        #[trigger] line[k]].parent == #[trigger] line[l]
}

/// Another child of the same parent goes by the same name.
pub open spec fn has_namesake(tree: TreeView, id: Ref) -> bool {
    let parent = tree.instances[id].parent;
    let kids = tree.instances[parent].children;
    tree.instances.contains_key(parent) && exists|i: int|
        0 <= i < kids.len() && kids[i] != id && (#[trigger] tree.instances[kids[i]]).name
            == tree.instances[id].name
}

/// The names of a line from the top down, without that of the top.
pub open spec fn names_down_line(tree: TreeView, line: Seq<Ref>) -> Seq<Seq<char>> {
    Seq::new(
        (line.len() - 1) as nat,
        |i: int| tree.instances[line[line.len() - 2 - i]].name,
    )
}

/// Nothing below the top of a line has a namesake.
pub open spec fn clear_line(tree: TreeView, line: Seq<Ref>) -> bool {
    forall|k: int| 0 <= k < line.len() - 1 ==> !has_namesake(tree, #[trigger] line[k])
}

proof fn lemma_namesake(tree: TreeView, id: Ref)
    requires
        well_formed(tree),
        tree.instances.contains_key(id),
    ensures
        unambiguous(tree, id) <==> !has_namesake(tree, id),
{
    let depth = choose|depth: Map<Ref, nat>| #[trigger] ranked(tree, depth);
    let parent = tree.instances[id].parent;
    let name = tree.instances[id].name;
    let kids = tree.instances[parent].children;
    if has_namesake(tree, id) {
        let i = choose|i: int|
            0 <= i < kids.len() && kids[i] != id && (#[trigger] tree.instances[kids[i]]).name
                == name;
        assert(tree.instances.contains_key(tree.instances[parent].children[i]));
        assert(child_named(tree, parent, name, kids[i]));
    }
    if !unambiguous(tree, id) {
        let other = choose|other: Ref| #[trigger]
            child_named(tree, parent, name, other) && other != id;
        let i = choose|i: int| 0 <= i < kids.len() && kids[i] == other;
        assert(tree.instances[kids[i]].name == name);
    }
}

proof fn lemma_line_is_climbed(tree: TreeView, line: Seq<Ref>, k: int)
    requires
        well_formed(tree),
        is_line(tree, line),
        0 <= k < line.len(),
    ensures
        climbed(tree, line[0], k as nat) == Some(line[k]),
        k <= level(tree, line[0]),
        level(tree, line[k]) == level(tree, line[0]) - k,
    decreases k,
{
    hops_stay_inside(tree, line[0]);
    if k > 0 {
        lemma_line_is_climbed(tree, line, k - 1);
        assert(tree.instances[line[k - 1]].parent == line[k]);
    }
    assert(climbed(tree, line[0], k as nat) == Some(line[k]));
    level_after_hops(tree, line[0], k as nat);
}

proof fn lemma_line_is_clear(tree: TreeView, line: Seq<Ref>)
    requires
        well_formed(tree),
        is_line(tree, line),
    ensures
        clear_steps(tree, line[0], (line.len() - 1) as nat) <==> clear_line(tree, line),
        steps_to(tree, line[0], (line.len() - 1) as nat) == names_down_line(tree, line),
{
    let count = (line.len() - 1) as nat;
    assert forall|k: int| 0 <= k < line.len() implies climbed(tree, line[0], k as nat) == Some(
        #[trigger] line[k],
    ) && (unambiguous(tree, line[k]) <==> !has_namesake(tree, line[k])) by {
        lemma_line_is_climbed(tree, line, k);
        lemma_namesake(tree, line[k]);
    }
    if clear_line(tree, line) {
        assert forall|up: nat| up < count implies unambiguous(
            tree,
            (#[trigger] climbed(tree, line[0], up))->0,
        ) by {
            assert(!has_namesake(tree, line[up as int]));
        }
    }
    if clear_steps(tree, line[0], count) {
        assert forall|k: int| 0 <= k < line.len() - 1 implies !has_namesake(
            tree,
            #[trigger] line[k],
        ) by {
            assert(unambiguous(tree, climbed(tree, line[0], k as nat)->0));
        }
    }
    assert forall|i: int| 0 <= i < count implies steps_to(tree, line[0], count)[i]
        == names_down_line(tree, line)[i] by {
        assert(climbed(tree, line[0], (count - 1 - i) as nat) == Some(line[count - 1 - i]));
    }
    assert(steps_to(tree, line[0], count) =~= names_down_line(tree, line));
}

/// An instance that has an id is described by it, to everyone.
pub proof fn id_describes_best(tree: TreeView, from: Ref, target: Ref, id: Seq<char>)
    requires
        tree.metas.contains_key(target),
        tree.metas[target].id == Some(id),
    ensures
        described(tree, from, target) == Some(PathView::Id(id)),
{
}

/// What is not part of the tree is not described.
pub proof fn outsiders_are_not_described(tree: TreeView, from: Ref, target: Ref)
    requires
        well_formed(tree),
        !tree.instances.contains_key(target),
    ensures
        described(tree, from, target) is None,
        absolute_path(tree, target) is None,
{
    assert(!tree.metas.dom().contains(target));
}

/// Describing is complete: two instances meet at the closest one that both of
/// them live under, and the path from one to the other takes every hop up to
/// it and every name down from it. There is no path only if something on the
/// way down has a namesake.
pub proof fn description_takes_closest_way(tree: TreeView, above: Seq<Ref>, below: Seq<Ref>)
    requires
        well_formed(tree),
        is_line(tree, above),
        is_line(tree, below),
        above.last() == below.last(),
        forall|i: int, k: int|
            0 <= i < above.len() - 1 && 0 <= k < below.len() ==> #[trigger] above[i]
                != #[trigger] below[k],
        above[0] != below[0],
        tree.metas[below[0]].id is None,
    ensures
        described(tree, above[0], below[0]) == if clear_line(tree, below) {
            Some(
                PathView::Relative {
                    up: (above.len() - 1) as nat,
                    down: names_down_line(tree, below),
                },
            )
        } else {
            None
        },
{
    let from = above[0];
    let target = below[0];
    let up = (above.len() - 1) as nat;
    let common = above.last();
    lemma_line_is_climbed(tree, above, up as int);
    lemma_line_is_climbed(tree, below, below.len() - 1);
    lemma_line_is_clear(tree, below);
    assert(lives_under(tree, target, common));
    assert forall|less: nat| less < up implies !lives_under(
        tree,
        target,
        (#[trigger] climbed(tree, from, less))->0,
    ) by {
        lemma_line_is_climbed(tree, above, less as int);
        let at = above[less as int];
        if lives_under(tree, target, at) {
            let k = choose|k: nat|
                k <= level(tree, target) && #[trigger] climbed(tree, target, k) == Some(at);
            level_after_hops(tree, target, k);
            assert(k < below.len());
            lemma_line_is_climbed(tree, below, k as int);
            assert(above[less as int] == below[k as int]);
        }
    }
    assert(meets_at(tree, from, target, up));
    meeting_is_unique(tree, from, target, up);
}

/// Any two instances meet somewhere, so that one can always be described to the
/// other or has a namesake on the way.
pub proof fn instances_always_meet(tree: TreeView, from: Ref, target: Ref) -> (lines: (
    Seq<Ref>,
    Seq<Ref>,
))
    requires
        well_formed(tree),
        tree.instances.contains_key(from),
        tree.instances.contains_key(target),
    ensures
        is_line(tree, lines.0),
        is_line(tree, lines.1),
        lines.0[0] == from,
        lines.1[0] == target,
        lines.0.last() == lines.1.last(),
        forall|i: int, k: int|
            0 <= i < lines.0.len() - 1 && 0 <= k < lines.1.len() ==> #[trigger] lines.0[i]
                != #[trigger] lines.1[k],
{
    let up = crate::lineage::some_hops_meet(tree, from, target);
    meeting_is_unique(tree, from, target, up);
    let count = (level(tree, target) - (level(tree, from) - up)) as nat;
    level_after_hops(tree, from, up);
    let above = Seq::new(up + 1, |k: int| climbed(tree, from, k as nat)->0);
    let below = Seq::new(count + 1, |k: int| climbed(tree, target, k as nat)->0);
    lemma_hops_are_line(tree, from, up);
    lemma_hops_are_line(tree, target, count);
    assert(climbed(tree, from, 0) == Some(from));
    assert(climbed(tree, target, 0) == Some(target));
    assert forall|i: int, k: int|
        0 <= i < above.len() - 1 && 0 <= k < below.len() implies #[trigger] above[i]
        != #[trigger] below[k] by {
        level_after_hops(tree, target, k as nat);
        if above[i] == below[k] {
            assert(climbed(tree, target, k as nat) == Some(above[i]));
            assert(lives_under(tree, target, climbed(tree, from, i as nat)->0));
        }
    }
    (above, below)
}

proof fn lemma_hops_are_line(tree: TreeView, id: Ref, up: nat)
    requires
        well_formed(tree),
        tree.instances.contains_key(id),
        up <= level(tree, id),
    ensures
        is_line(tree, Seq::new(up + 1, |k: int| climbed(tree, id, k as nat)->0)),
{
    let line = Seq::new(up + 1, |k: int| climbed(tree, id, k as nat)->0);
    hops_stay_inside(tree, id);
    assert forall|k: int| 0 <= k < line.len() implies tree.instances.contains_key(
        #[trigger] line[k],
    ) by {
        assert(climbed(tree, id, k as nat) is Some);
    }
    assert forall|k: int, l: int|
        0 <= k < line.len() && l == k + 1 && l < line.len() implies tree.instances[
    #[trigger] line[k]].parent == #[trigger] line[l] by {
        assert(climbed(tree, id, k as nat) is Some);
        assert(climbed(tree, id, l as nat) is Some);
        assert((l - 1) as nat == k as nat);
    }
}

/// An instance is described to itself by its name inside of its parent, unless
/// it has a namesake there.
pub proof fn own_description_is_own_name(tree: TreeView, id: Ref)
    requires
        well_formed(tree),
        tree.instances.contains_key(id),
        tree.metas[id].id is None,
    ensures
        described(tree, id, id) == if has_namesake(tree, id) {
            None
        } else {
            Some(PathView::Relative { up: 1, down: seq![tree.instances[id].name] })
        },
{
    lemma_namesake(tree, id);
}

/// The absolute path of an instance takes every name down from the root. There
/// is none to the root itself, and none if something on the way down has a
/// namesake. It is also how an instance is described to what is not part of the
/// tree.
pub proof fn absolute_path_takes_every_name(tree: TreeView, line: Seq<Ref>, outsider: Ref)
    requires
        well_formed(tree),
        is_line(tree, line),
        line.last() == tree.root,
        !tree.instances.contains_key(outsider),
    ensures
        absolute_path(tree, line[0]) == if line.len() > 1 && clear_line(tree, line) {
            Some(PathView::Absolute(names_down_line(tree, line)))
        } else {
            None
        },
        tree.metas[line[0]].id is None ==> described(tree, outsider, line[0]) == absolute_path(
            tree,
            line[0],
        ),
{
    let target = line[0];
    lemma_line_is_climbed(tree, line, line.len() - 1);
    level_is_unique(tree, target, (line.len() - 1) as nat);
    lemma_line_is_clear(tree, line);
}

/// Every instance has a line that ends with the root.
pub proof fn lines_lead_to_root(tree: TreeView, id: Ref) -> (line: Seq<Ref>)
    requires
        well_formed(tree),
        tree.instances.contains_key(id),
    ensures
        is_line(tree, line),
        line[0] == id,
        line.last() == tree.root,
{
    hops_stay_inside(tree, id);
    lemma_hops_are_line(tree, id, level(tree, id));
    assert(climbed(tree, id, 0) == Some(id));
    Seq::new(level(tree, id) + 1, |k: int| climbed(tree, id, k as nat)->0)
}

/// No relative path that leads to an instance makes fewer hops than the one
/// that describes it, and if any leads there, one describes it.
pub proof fn description_is_shortest(
    tree: TreeView,
    from: Ref,
    target: Ref,
    up: nat,
    down: Seq<Seq<char>>,
)
    requires
        well_formed(tree),
        tree.instances.contains_key(from),
        tree.instances.contains_key(target),
        from != target,
        tree.metas[target].id is None,
        resolved(tree, PathView::Relative { up, down }, from) == Some(target),
    ensures
        described(tree, from, target) matches Some(PathView::Relative { up: fewest, .. })
            && fewest <= up,
{
    let at = climbed(tree, from, up)->0;
    hops_stay_inside(tree, from);
    lemma_route_down(tree, at, down, target);
    if down.len() == 0 {
        assert(at == target);
    }
    assert(tree.instances.contains_key(at));
    assert(up <= level(tree, from));
    level_after_hops(tree, from, up);
    let fewest = crate::lineage::some_hops_meet(tree, from, target);
    meeting_is_unique(tree, from, target, fewest);
    assert(lives_under(tree, target, at));
    assert(fewest <= up);
    level_after_hops(tree, from, fewest);
    let count = (level(tree, target) - (level(tree, from) - fewest)) as nat;
    assert(count <= down.len());
    assert(clear_steps(tree, target, count));
}

proof fn lemma_route_down(tree: TreeView, at: Ref, down: Seq<Seq<char>>, target: Ref)
    requires
        well_formed(tree),
        descended(tree, at, down) == Some(target),
        tree.instances.contains_key(target),
    ensures
        tree.instances.contains_key(at),
        climbed(tree, target, down.len()) == Some(at),
        down.len() <= level(tree, target),
        level(tree, at) == level(tree, target) - down.len(),
        lives_under(tree, target, at),
        clear_steps(tree, target, down.len()),
    decreases down.len(),
{
    assert(climbed(tree, target, 0) == Some(target));
    if down.len() > 0 {
        let last = descended(tree, at, down.drop_last())->0;
        let depth = choose|depth: Map<Ref, nat>| #[trigger] ranked(tree, depth);
        let kids = tree.instances[last].children;
        assert(sole_child_named(tree, last, down.last(), target));
        let i = choose|i: int| 0 <= i < kids.len() && kids[i] == target;
        assert(tree.instances.contains_key(tree.instances[last].children[i]));
        assert(tree.instances[target].parent == last);
        lemma_route_down(tree, at, down.drop_last(), last);
        assert(climbed(tree, target, 1) == Some(last)) by {
            reveal_with_fuel(climbed, 2);
        }
        hops_stay_inside(tree, target);
        let fewer = (down.len() - 1) as nat;
        hops_add_up(tree, target, 1, fewer);
        assert(1 + fewer == down.len());
        assert(climbed(tree, target, down.len()) == Some(at));
        level_after_hops(tree, target, down.len());
        assert forall|up: nat| up < down.len() implies unambiguous(
            tree,
            (#[trigger] climbed(tree, target, up))->0,
        ) by {
            if up > 0 {
                let less = (up - 1) as nat;
                hops_add_up(tree, target, 1, less);
                assert(1 + less == up);
                assert(unambiguous(tree, climbed(tree, last, less)->0));
            }
        }
    }
    level_after_hops(tree, target, down.len());
}

} // verus!
