//! How a tree grows when snapshots are added to it.

use vstd::prelude::*;

use crate::model::{ranked, well_formed, InstanceView, TreeView};
use crate::referent::{nothing, Ref};
use crate::snapshot::{MetaView, SnapshotView};

verus! {

/// How many instances a snapshot holds.
pub open spec fn size(snapshot: SnapshotView) -> nat
    decreases snapshot, 0nat,
{
    1 + size_of_all(snapshot.children)
}

/// How many instances the snapshots of a list hold.
pub open spec fn size_of_all(snapshots: Seq<SnapshotView>) -> nat
    decreases snapshots, snapshots.len(),
{
    if snapshots.len() == 0 {
        0
    } else {
        size_of_all(snapshots.drop_last()) + size(snapshots.last())
    }
}

/// The instance `at` of a tree is what the snapshot says, and so are its
/// descendants.
pub open spec fn placed(tree: TreeView, at: Ref, parent: Ref, snapshot: SnapshotView) -> bool
    decreases snapshot,
{
    let instance = tree.instances[at];
    &&& tree.instances.contains_key(at)
    &&& instance.name == snapshot.name
    &&& instance.class == snapshot.class
    &&& instance.properties == snapshot.properties
    &&& instance.parent == parent
    &&& tree.metas[at] == snapshot.meta
    &&& instance.children.len() == snapshot.children.len()
    &&& forall|i: int|
        0 <= i < snapshot.children.len() ==> placed(
            tree,
            instance.children[i],
            at,
            #[trigger] snapshot.children[i],
        )
}

/// The instances of the tree carry the ids that the snapshot gives them.
pub open spec fn keeps_ids(tree: TreeView, at: Ref, snapshot: SnapshotView) -> bool
    decreases snapshot,
{
    &&& at == snapshot.id
    &&& forall|i: int|
        0 <= i < snapshot.children.len() ==> keeps_ids(
            tree,
            tree.instances[at].children[i],
            #[trigger] snapshot.children[i],
        )
}

/// `id` is the id of the snapshot or of one of its descendants.
pub open spec fn holds_id(snapshot: SnapshotView, id: Ref) -> bool
    decreases snapshot,
{
    ||| snapshot.id == id
    ||| exists|i: int|
        0 <= i < snapshot.children.len() && holds_id(#[trigger] snapshot.children[i], id)
}

/// No two instances of the snapshots share an id.
pub open spec fn distinct_among(snapshots: Seq<SnapshotView>) -> bool
    decreases snapshots,
{
    &&& forall|i: int| 0 <= i < snapshots.len() ==> distinct_ids(#[trigger] snapshots[i])
    &&& forall|i: int, j: int, id: Ref|
        0 <= i < j < snapshots.len() && #[trigger] holds_id(snapshots[i], id)
            && #[trigger] holds_id(snapshots[j], id) ==> false
}

/// No two instances of the snapshot share an id.
pub open spec fn distinct_ids(snapshot: SnapshotView) -> bool
    decreases snapshot,
{
    &&& distinct_among(snapshot.children)
    &&& forall|i: int|
        0 <= i < snapshot.children.len() ==> !holds_id(
            #[trigger] snapshot.children[i],
            snapshot.id,
        )
}

/// Every instance of the snapshot brings an id of its own, none of which the
/// tree knows.
pub open spec fn brings_ids(snapshot: SnapshotView, tree: TreeView) -> bool {
    &&& distinct_ids(snapshot)
    &&& forall|id: Ref| #[trigger]
        holds_id(snapshot, id) ==> id != nothing() && !tree.instances.contains_key(id)
}

/// `after` holds everything that `before` does, unchanged but for children
/// added to `parent`.
pub open spec fn extends(before: TreeView, after: TreeView, parent: Ref) -> bool {
    &&& after.root == before.root
    &&& before.order.len() <= after.order.len()
    &&& after.order.take(before.order.len() as int) == before.order
    &&& forall|id: Ref| #[trigger]
        before.instances.contains_key(id) ==> {
            let old_instance = before.instances[id];
            let new_instance = after.instances[id];
            &&& after.instances.contains_key(id)
            &&& after.metas[id] == before.metas[id]
            &&& id != parent ==> new_instance == old_instance
            &&& new_instance.name == old_instance.name
            &&& new_instance.class == old_instance.class
            &&& new_instance.properties == old_instance.properties
            &&& new_instance.parent == old_instance.parent
            &&& old_instance.children.len() <= new_instance.children.len()
            &&& new_instance.children.take(old_instance.children.len() as int)
                == old_instance.children
        }
}

/// Every instance of the snapshots brings an id of its own, none of which the
/// tree knows.
pub open spec fn all_bring_ids(snapshots: Seq<SnapshotView>, tree: TreeView) -> bool {
    &&& distinct_among(snapshots)
    &&& forall|i: int, id: Ref|
        0 <= i < snapshots.len() && #[trigger] holds_id(snapshots[i], id) ==> id != nothing()
            && !tree.instances.contains_key(id)
}

/// Every instance that `after` holds and `before` does not goes by an id of
/// one of the snapshots.
pub open spec fn adds_only(
    before: TreeView,
    after: TreeView,
    snapshots: Seq<SnapshotView>,
) -> bool {
    forall|id: Ref| #[trigger]
        after.instances.contains_key(id) && !before.instances.contains_key(id) ==> exists|i: int|
            0 <= i < snapshots.len() && #[trigger] holds_id(snapshots[i], id)
}

/// A tree extends itself.
pub proof fn extends_itself(tree: TreeView, parent: Ref)
    ensures
        extends(tree, tree, parent),
{
    assert(tree.order.take(tree.order.len() as int) =~= tree.order);
    assert forall|id: Ref| #[trigger] tree.instances.contains_key(id) implies
        tree.instances[id].children.take(tree.instances[id].children.len() as int)
        == tree.instances[id].children by {
        assert(tree.instances[id].children.take(tree.instances[id].children.len() as int)
            =~= tree.instances[id].children);
    }
}

/// Extending a tree further, below the same parent or below an instance that
/// was added before, still extends it.
pub proof fn extends_further(a: TreeView, b: TreeView, c: TreeView, parent: Ref, next: Ref)
    requires
        extends(a, b, parent),
        extends(b, c, next),
        next == parent || !a.instances.contains_key(next),
    ensures
        extends(a, c, parent),
{
    assert(c.order.take(a.order.len() as int) =~= b.order.take(a.order.len() as int)) by {
        assert forall|i: int| 0 <= i < a.order.len() implies c.order[i] == b.order[i] by {
            assert(c.order.take(b.order.len() as int)[i] == b.order[i]);
        }
    }
    assert forall|id: Ref| #[trigger] a.instances.contains_key(id) implies {
        let old_instance = a.instances[id];
        let new_instance = c.instances[id];
        &&& c.instances.contains_key(id)
        &&& c.metas[id] == a.metas[id]
        &&& id != parent ==> new_instance == old_instance
        &&& new_instance.name == old_instance.name
        &&& new_instance.class == old_instance.class
        &&& new_instance.properties == old_instance.properties
        &&& new_instance.parent == old_instance.parent
        &&& old_instance.children.len() <= new_instance.children.len()
        &&& new_instance.children.take(old_instance.children.len() as int)
            == old_instance.children
    } by {
        assert(b.instances.contains_key(id));
        let first = a.instances[id].children;
        let then = b.instances[id].children;
        let last = c.instances[id].children;
        assert forall|i: int| 0 <= i < first.len() implies last[i] == first[i] by {
            assert(last.take(then.len() as int)[i] == then[i]);
            assert(then.take(first.len() as int)[i] == first[i]);
        }
        assert(last.take(first.len() as int) =~= first);
    }
}

/// A tree with one more instance, the last child of `parent`.
pub open spec fn with_leaf(
    tree: TreeView,
    at: Ref,
    leaf: InstanceView,
    meta: MetaView,
) -> TreeView {
    let above = tree.instances[leaf.parent];
    TreeView {
        root: tree.root,
        instances: tree.instances.insert(
            leaf.parent,
            InstanceView { children: above.children.push(at), ..above },
        ).insert(at, leaf),
        metas: tree.metas.insert(at, meta),
        order: tree.order.push(at),
    }
}

/// Adding a childless instance keeps a tree a tree.
pub proof fn leaf_keeps_tree(tree: TreeView, at: Ref, leaf: InstanceView, meta: MetaView)
    requires
        well_formed(tree),
        tree.instances.contains_key(leaf.parent),
        !tree.instances.contains_key(at),
        at != nothing(),
        leaf.children.len() == 0,
    ensures
        well_formed(with_leaf(tree, at, leaf, meta)),
        extends(tree, with_leaf(tree, at, leaf, meta), leaf.parent),
{
    let after = with_leaf(tree, at, leaf, meta);
    let parent = leaf.parent;
    let depth = choose|depth: Map<Ref, nat>| #[trigger] ranked(tree, depth);
    let deeper = depth.insert(at, (depth[parent] + 1) as nat);
    let kids = tree.instances[parent].children;
    assert(after.instances[parent].children == kids.push(at));
    assert forall|id: Ref| #[trigger] after.instances.contains_key(id) implies
        after.instances[id].children.no_duplicates() by {
        if id == parent {
            assert forall|i: int| 0 <= i < kids.len() implies kids[i] != at by {
                assert(tree.instances.contains_key(tree.instances[parent].children[i]));
            }
        } else if id != at {
            assert(tree.instances.contains_key(id));
        }
    }
    assert forall|id: Ref, i: int|
        after.instances.contains_key(id) && 0 <= i < after.instances[id].children.len() implies
        after.instances.contains_key(#[trigger] after.instances[id].children[i])
            && after.instances[after.instances[id].children[i]].parent == id by {
        let child = after.instances[id].children[i];
        if id == parent && i == kids.len() {
            assert(child == at);
        } else {
            assert(tree.instances.contains_key(id));
            assert(child == tree.instances[id].children[i]);
        }
    }
    assert forall|id: Ref| #[trigger] after.instances.contains_key(id) && id
        != after.root implies {
        let above = after.instances[id].parent;
        &&& after.instances.contains_key(above)
        &&& after.instances[above].children.contains(id)
        &&& deeper[above] < deeper[id]
    } by {
        let above = after.instances[id].parent;
        if id == at {
            assert(kids.push(at)[kids.len() as int] == at);
        } else {
            assert(tree.instances.contains_key(id));
            let siblings = tree.instances[above].children;
            let k = choose|k: int| 0 <= k < siblings.len() && siblings[k] == id;
            assert(after.instances[above].children[k] == id);
        }
    }
    assert(ranked(after, deeper));
    assert(after.metas.dom() =~= after.instances.dom());
    assert forall|id: Ref| #[trigger]
        after.order.contains(id) <==> after.instances.contains_key(id) by {
        if id == at {
            assert(after.order[tree.order.len() as int] == at);
        } else if tree.order.contains(id) {
            let k = choose|k: int| 0 <= k < tree.order.len() && tree.order[k] == id;
            assert(after.order[k] == id);
        } else if after.order.contains(id) {
            let k = choose|k: int| 0 <= k < after.order.len() && after.order[k] == id;
            assert(tree.order[k] == id);
        }
    }
    assert forall|i: int| 0 <= i < tree.order.len() implies tree.order[i] != at by {
        assert(tree.order.contains(tree.order[i]));
    }
    assert(after.order.no_duplicates());
    assert(after.order.take(tree.order.len() as int) =~= tree.order);
    assert forall|id: Ref| #[trigger] tree.instances.contains_key(id) implies {
        let old_instance = tree.instances[id];
        let new_instance = after.instances[id];
        &&& old_instance.children.len() <= new_instance.children.len()
        &&& new_instance.children.take(old_instance.children.len() as int)
            == old_instance.children
    } by {
        assert(after.instances[id].children.take(tree.instances[id].children.len() as int)
            =~= tree.instances[id].children);
    }
}

/// What a snapshot says of a part of the tree stays true while the tree grows
/// somewhere above that part.
pub proof fn placed_stays(
    before: TreeView,
    after: TreeView,
    parent: Ref,
    depth: Map<Ref, nat>,
    at: Ref,
    above: Ref,
    snapshot: SnapshotView,
)
    requires
        well_formed(before),
        ranked(before, depth),
        extends(before, after, parent),
        before.instances.contains_key(parent),
        placed(before, at, above, snapshot),
        depth[parent] < depth[at],
    ensures
        placed(after, at, above, snapshot),
        keeps_ids(before, at, snapshot) ==> keeps_ids(after, at, snapshot),
    decreases snapshot,
{
    assert(before.instances.contains_key(at));
    assert(after.instances[at] == before.instances[at]);
    let kids = before.instances[at].children;
    assert forall|i: int| 0 <= i < snapshot.children.len() implies placed(
        after,
        kids[i],
        at,
        #[trigger] snapshot.children[i],
    ) && (keeps_ids(before, kids[i], snapshot.children[i]) ==> keeps_ids(
        after,
        kids[i],
        snapshot.children[i],
    )) by {
        assert(placed(before, kids[i], at, snapshot.children[i]));
        assert(before.instances.contains_key(before.instances[at].children[i]));
        if kids[i] == before.root {
            assert(before.instances[kids[i]].parent == at);
        }
        placed_stays(before, after, parent, depth, kids[i], at, snapshot.children[i]);
    }
    if keeps_ids(before, at, snapshot) {
        assert forall|i: int| 0 <= i < snapshot.children.len() implies keeps_ids(
            after,
            after.instances[at].children[i],
            #[trigger] snapshot.children[i],
        ) by {
            assert(keeps_ids(before, kids[i], snapshot.children[i]));
        }
    }
}

/// An instance and the children that were added to it make up the snapshot.
pub proof fn leaf_and_children_are_placed(
    start: TreeView,
    planted: TreeView,
    after: TreeView,
    at: Ref,
    parent: Ref,
    snapshot: SnapshotView,
)
    requires
        extends(planted, after, at),
        !start.instances.contains_key(at),
        planted.instances.contains_key(at),
        forall|id: Ref| #[trigger]
            planted.instances.contains_key(id) ==> id == at || start.instances.contains_key(id),
        planted.instances[at].name == snapshot.name,
        planted.instances[at].class == snapshot.class,
        planted.instances[at].properties == snapshot.properties,
        planted.instances[at].parent == parent,
        planted.instances[at].children.len() == 0,
        planted.metas[at] == snapshot.meta,
        after.instances[at].children.len() == snapshot.children.len(),
        forall|i: int|
            0 <= i < snapshot.children.len() ==> placed(
                after,
                after.instances[at].children[0 + i],
                at,
                #[trigger] snapshot.children[i],
            ),
        all_bring_ids(snapshot.children, planted) ==> {
            &&& forall|i: int|
                0 <= i < snapshot.children.len() ==> keeps_ids(
                    after,
                    after.instances[at].children[0 + i],
                    #[trigger] snapshot.children[i],
                )
            &&& adds_only(planted, after, snapshot.children)
        },
    ensures
        placed(after, at, parent, snapshot),
        brings_ids(snapshot, start) && at == snapshot.id ==> keeps_ids(after, at, snapshot)
            && adds_only(start, after, seq![snapshot]),
{
    let kids = snapshot.children;
    assert forall|i: int| 0 <= i < kids.len() implies placed(
        after,
        after.instances[at].children[i],
        at,
        #[trigger] kids[i],
    ) by {
        assert(placed(after, after.instances[at].children[0 + i], at, kids[i]));
    }
    if brings_ids(snapshot, start) && at == snapshot.id {
        assert forall|i: int, held: Ref|
            0 <= i < kids.len() && #[trigger] holds_id(kids[i], held) implies held != nothing()
            && !planted.instances.contains_key(held) by {
            assert(holds_id(snapshot, held));
        }
        assert(all_bring_ids(kids, planted));
        assert forall|i: int| 0 <= i < kids.len() implies keeps_ids(
            after,
            after.instances[at].children[i],
            #[trigger] kids[i],
        ) by {
            assert(keeps_ids(after, after.instances[at].children[0 + i], kids[i]));
        }
        assert forall|new: Ref| #[trigger]
            after.instances.contains_key(new) && !start.instances.contains_key(new) implies exists|
            i: int,
        |
            0 <= i < 1 && #[trigger] holds_id(seq![snapshot][i], new) by {
            assert(holds_id(snapshot, new)) by {
                if new != at {
                    assert(!planted.instances.contains_key(new));
                    let i = choose|i: int| 0 <= i < kids.len() && #[trigger] holds_id(kids[i], new);
                    assert(holds_id(kids[i], new));
                }
            }
            assert(holds_id(seq![snapshot][0], new));
        }
    }
}

} // verus!
