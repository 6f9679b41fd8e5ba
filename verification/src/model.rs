//! What a tree of instances is, and where its instances are.

use vstd::prelude::*;

use crate::property::ValueView;
use crate::ref_path::PathView;
use crate::referent::{nothing, Ref};
use crate::snapshot::MetaView;

verus! {

/// What an instance of a tree holds.
pub struct InstanceView {
    pub name: Seq<char>,
    pub class: Seq<char>,
    pub parent: Ref,
    pub children: Seq<Ref>,
    pub properties: Map<Seq<char>, ValueView>,
}

/// What a tree holds: its instances, what is known of each of them, and the
/// order in which they were added.
pub struct TreeView {
    pub root: Ref,
    pub instances: Map<Ref, InstanceView>,
    pub metas: Map<Ref, MetaView>,
    pub order: Seq<Ref>,
}

/// Every instance but the root is a child of its parent and of nothing else,
/// and lies deeper than its parent.
pub open spec fn ranked(tree: TreeView, depth: Map<Ref, nat>) -> bool {
    &&& forall|id: Ref| #[trigger]
        tree.instances.contains_key(id) ==> tree.instances[id].children.no_duplicates()
    &&& forall|id: Ref, i: int|
        tree.instances.contains_key(id) && 0 <= i < tree.instances[id].children.len()
            ==> tree.instances.contains_key(#[trigger] tree.instances[id].children[i])
            && tree.instances[tree.instances[id].children[i]].parent == id
    &&& forall|id: Ref| #[trigger]
        tree.instances.contains_key(id) && id != tree.root ==> {
            let parent = tree.instances[id].parent;
            &&& tree.instances.contains_key(parent)
            &&& tree.instances[parent].children.contains(id)
            &&& depth[parent] < depth[id]
        }
}

/// The order lists every instance once.
pub open spec fn ordered(tree: TreeView) -> bool {
    &&& tree.order.no_duplicates()
    &&& forall|id: Ref| #[trigger] tree.order.contains(id) <==> tree.instances.contains_key(id)
}

/// The instances form a tree: all of them hang from the root, which has no
/// parent, and something is known of each.
pub open spec fn well_formed(tree: TreeView) -> bool {
    &&& tree.instances.contains_key(tree.root)
    &&& tree.instances[tree.root].parent == nothing()
    &&& !tree.instances.contains_key(nothing())
    &&& tree.metas.dom() == tree.instances.dom()
    &&& ordered(tree)
    &&& exists|depth: Map<Ref, nat>| #[trigger] ranked(tree, depth)
}

/// Where `up` hops towards the root lead from `from`. Walking past the root
/// lands on the parent of it, which is nothing, and walking on from there
/// leads nowhere.
pub open spec fn climbed(tree: TreeView, from: Ref, up: nat) -> Option<Ref>
    decreases up,
{
    if up == 0 {
        Some(from)
    } else {
        match climbed(tree, from, (up - 1) as nat) {
            Some(at) => if tree.instances.contains_key(at) {
                Some(tree.instances[at].parent)
            } else {
                None
            },
            None => None,
        }
    }
}

/// `child` is a child of `at` that answers to `name`.
pub open spec fn child_named(tree: TreeView, at: Ref, name: Seq<char>, child: Ref) -> bool {
    &&& tree.instances.contains_key(at)
    &&& tree.instances[at].children.contains(child)
    &&& tree.instances.contains_key(child)
    &&& tree.instances[child].name == name
}

/// `child` is the only child of `at` that answers to `name`.
pub open spec fn sole_child_named(tree: TreeView, at: Ref, name: Seq<char>, child: Ref) -> bool {
    &&& child_named(tree, at, name, child)
    &&& forall|other: Ref| #[trigger] child_named(tree, at, name, other) ==> other == child
}

/// Where the name leads from `at`: to the child that answers to it, unless
/// none does or more than one.
pub open spec fn entered(tree: TreeView, at: Ref, name: Seq<char>) -> Option<Ref> {
    if exists|child: Ref| sole_child_named(tree, at, name, child) {
        Some(choose|child: Ref| sole_child_named(tree, at, name, child))
    } else {
        None
    }
}

/// Where the names lead from `at`, one after another.
pub open spec fn descended(tree: TreeView, at: Ref, names: Seq<Seq<char>>) -> Option<Ref>
    decreases names.len(),
{
    if names.len() == 0 {
        Some(at)
    } else {
        match descended(tree, at, names.drop_last()) {
            Some(last) => entered(tree, last, names.last()),
            None => None,
        }
    }
}

/// The first of the instances in `order` that calls itself `id`.
pub open spec fn claimant_in(
    order: Seq<Ref>,
    metas: Map<Ref, MetaView>,
    id: Seq<char>,
) -> Option<Ref>
    decreases order.len(),
{
    if order.len() == 0 {
        None
    } else {
        match claimant_in(order.drop_last(), metas, id) {
            Some(found) => Some(found),
            None => if metas[order.last()].id == Some(id) {
                Some(order.last())
            } else {
                None
            },
        }
    }
}

/// The instance that calls itself `id`, the first one added if several do.
pub open spec fn claimant(tree: TreeView, id: Seq<char>) -> Option<Ref> {
    claimant_in(tree.order, tree.metas, id)
}

/// The instances in `order` that hold references kept as paths.
pub open spec fn holders_in(order: Seq<Ref>, metas: Map<Ref, MetaView>) -> Seq<Ref>
    decreases order.len(),
{
    if order.len() == 0 {
        Seq::empty()
    } else {
        let before = holders_in(order.drop_last(), metas);
        if metas[order.last()].refs.dom() == Set::<Seq<char>>::empty() {
            before
        } else {
            before.push(order.last())
        }
    }
}

/// The instances that hold references kept as paths, in the order in which
/// they were added.
pub open spec fn holders(tree: TreeView) -> Seq<Ref> {
    holders_in(tree.order, tree.metas)
}

/// A tree with other knowledge of one of its instances.
pub open spec fn with_meta(tree: TreeView, id: Ref, meta: MetaView) -> TreeView {
    if tree.instances.contains_key(id) {
        TreeView { metas: tree.metas.insert(id, meta), ..tree }
    } else {
        tree
    }
}

/// A tree with more properties on one of its instances.
pub open spec fn with_properties(
    tree: TreeView,
    id: Ref,
    properties: Map<Seq<char>, ValueView>,
) -> TreeView {
    let instance = tree.instances[id];
    if tree.instances.contains_key(id) {
        TreeView {
            instances: tree.instances.insert(
                id,
                InstanceView {
                    properties: instance.properties.union_prefer_right(properties),
                    ..instance
                },
            ),
            ..tree
        }
    } else {
        tree
    }
}

/// The instance that a path points at, as seen from `from`.
pub open spec fn resolved(tree: TreeView, path: PathView, from: Ref) -> Option<Ref> {
    match path {
        PathView::Id(id) => claimant(tree, id),
        PathView::Absolute(down) => descended(tree, tree.root, down),
        PathView::Relative { up, down } => match climbed(tree, from, up) {
            Some(at) => if at == nothing() {
                None
            } else {
                descended(tree, at, down)
            },
            None => None,
        },
    }
}

/// More than one child of `at` answers to `name`.
pub open spec fn shared_name(tree: TreeView, at: Ref, name: Seq<char>) -> bool {
    exists|one: Ref, other: Ref|
        one != other && #[trigger] child_named(tree, at, name, one) && #[trigger] child_named(
            tree,
            at,
            name,
            other,
        )
}

/// The names lead from `at` to an instance more than one child of which answers
/// to the `step`th of them.
pub open spec fn ambiguous_at(tree: TreeView, at: Ref, names: Seq<Seq<char>>, step: int) -> bool {
    &&& 0 <= step < names.len()
    &&& descended(tree, at, names.take(step)) matches Some(reached) && shared_name(
        tree,
        reached,
        names[step],
    )
}

/// Where the names of a path are followed from, if it gets that far.
pub open spec fn start_of(tree: TreeView, path: PathView, from: Ref) -> Option<Ref> {
    match path {
        PathView::Id(_) => None,
        PathView::Absolute(_) => Some(tree.root),
        PathView::Relative { up, .. } => match climbed(tree, from, up) {
            Some(at) => if at == nothing() {
                None
            } else {
                Some(at)
            },
            None => None,
        },
    }
}

/// The names of a path.
pub open spec fn names_of_path(path: PathView) -> Seq<Seq<char>> {
    match path {
        PathView::Id(_) => Seq::empty(),
        PathView::Absolute(down) => down,
        PathView::Relative { down, .. } => down,
    }
}

/// Following the path fails at its `step`th name, as more than one instance
/// answers to it.
pub open spec fn ambiguous_step(tree: TreeView, path: PathView, from: Ref, step: int) -> bool {
    start_of(tree, path, from) matches Some(at) && ambiguous_at(
        tree,
        at,
        names_of_path(path),
        step,
    )
}

/// No other child of the same parent answers to the name of `id`.
pub open spec fn unambiguous(tree: TreeView, id: Ref) -> bool {
    let instance = tree.instances[id];
    forall|other: Ref| #[trigger]
        child_named(tree, instance.parent, instance.name, other) ==> other == id
}

/// How many hops lead from `id` to the root.
pub open spec fn level(tree: TreeView, id: Ref) -> nat {
    choose|up: nat| climbed(tree, id, up) == Some(tree.root)
}

/// `id` or one of the instances it lives under is `ancestor`.
pub open spec fn lives_under(tree: TreeView, id: Ref, ancestor: Ref) -> bool {
    exists|up: nat| up <= level(tree, id) && #[trigger] climbed(tree, id, up) == Some(ancestor)
}

/// `up` hops from `from` lead to the closest instance that both `from` and
/// `target` live under.
pub open spec fn meets_at(tree: TreeView, from: Ref, target: Ref, up: nat) -> bool {
    &&& up <= level(tree, from)
    &&& lives_under(tree, target, climbed(tree, from, up)->0)
    &&& forall|less: nat|
        less < up ==> !lives_under(tree, target, (#[trigger] climbed(tree, from, less))->0)
}

/// The names that lead down to `target` over the last `count` steps.
pub open spec fn steps_to(tree: TreeView, target: Ref, count: nat) -> Seq<Seq<char>> {
    Seq::new(count, |i: int| tree.instances[climbed(tree, target, (count - 1 - i) as nat)->0].name)
}

/// None of the last `count` steps down to `target` is ambiguous.
pub open spec fn clear_steps(tree: TreeView, target: Ref, count: nat) -> bool {
    forall|up: nat| up < count ==> unambiguous(tree, (#[trigger] climbed(tree, target, up))->0)
}

/// The path of `target` as seen from the root. There is none to the root
/// itself, nor past an instance that shares its name with a sibling.
pub open spec fn absolute_path(tree: TreeView, target: Ref) -> Option<PathView> {
    let count = level(tree, target);
    if tree.instances.contains_key(target) && count > 0 && clear_steps(tree, target, count) {
        Some(PathView::Absolute(steps_to(tree, target, count)))
    } else {
        None
    }
}

/// The path from `from` to `target` by way of the closest instance both of
/// them live under.
pub open spec fn relative_path(tree: TreeView, from: Ref, target: Ref) -> Option<PathView> {
    let up = choose|up: nat| meets_at(tree, from, target, up);
    let count = (level(tree, target) - (level(tree, from) - up)) as nat;
    if clear_steps(tree, target, count) {
        Some(PathView::Relative { up, down: steps_to(tree, target, count) })
    } else {
        None
    }
}

/// Where `target` is, as seen from `from`: by its id if it has one, by its
/// absolute path if `from` is no instance of the tree, and otherwise by the
/// path relative to the closest instance both of them live under. An instance
/// is described to itself by its name inside of its parent.
pub open spec fn described(tree: TreeView, from: Ref, target: Ref) -> Option<PathView> {
    if tree.metas.contains_key(target) && tree.metas[target].id is Some {
        Some(PathView::Id(tree.metas[target].id->0))
    } else if !tree.instances.contains_key(from) {
        absolute_path(tree, target)
    } else if from == target {
        if unambiguous(tree, from) {
            Some(PathView::Relative { up: 1, down: seq![tree.instances[from].name] })
        } else {
            None
        }
    } else if !tree.instances.contains_key(target) {
        None
    } else {
        relative_path(tree, from, target)
    }
}

} // verus!
