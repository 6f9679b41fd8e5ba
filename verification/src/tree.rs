//! A tree of instances.

use std::collections::HashMap;

use rbx_dom_weak::types::Ref as Referent;
use vstd::prelude::*;

use crate::growth::{
    adds_only, all_bring_ids, brings_ids, distinct_ids, extends, extends_further, extends_itself,
    holds_id, keeps_ids, leaf_and_children_are_placed, leaf_keeps_tree, placed, placed_stays, size,
    size_of_all, with_leaf,
};
use crate::model::{
    claimant, claimant_in, holders, holders_in, ranked, well_formed, with_meta, with_properties,
    InstanceView, TreeView,
};
use crate::property::{
    clone_properties, extend_properties, has_no_paths, properties_view, Properties,
};
use crate::referent::{nothing, Ref};
use crate::snapshot::{snapshot_shows_children, snapshots_of, Meta, MetaView, Snapshot};

verus! {

broadcast use vstd::std_specs::hash::group_hash_axioms;

/// An instance of a tree.
#[derive(Debug)]
pub struct Instance {
    pub name: String,
    pub class: String,
    pub properties: Properties,
    pub parent: Ref,
    pub children: Vec<Ref>,
}

impl View for Instance {
    type V = InstanceView;

    open spec fn view(&self) -> InstanceView {
        InstanceView {
            name: self.name@,
            class: self.class@,
            parent: self.parent,
            children: self.children@,
            properties: properties_view(self.properties),
        }
    }
}

impl Instance {
    /// The parent of the instance, nothing if it is the root.
    pub fn parent(&self) -> (res: Ref)
        ensures
            res == self@.parent,
    {
        self.parent
    }

    /// The children of the instance, in order.
    pub fn children(&self) -> (res: &Vec<Ref>)
        ensures
            res@ == self@.children,
    {
        &self.children
    }
}

#[derive(Debug)]
struct Node {
    instance: Instance,
    meta: Meta,
}

/// A tree of instances, and what is known of each of them.
#[derive(Debug)]
pub struct Tree {
    root: Ref,
    nodes: HashMap<u128, Node>,
    order: Vec<Ref>,
}

impl View for Tree {
    type V = TreeView;

    closed spec fn view(&self) -> TreeView {
        TreeView {
            root: self.root,
            instances: Map::new(
                |id: Ref| self.nodes@.contains_key(id.value),
                |id: Ref| self.nodes@[id.value].instance@,
            ),
            metas: Map::new(
                |id: Ref| self.nodes@.contains_key(id.value),
                |id: Ref| self.nodes@[id.value].meta@,
            ),
            order: self.order@,
        }
    }
}

impl Tree {
    /// The referent of the root.
    pub fn root_ref(&self) -> (res: Ref)
        ensures
            res == self@.root,
    {
        self.root
    }

    /// The instance that `id` refers to.
    pub fn get_instance(&self, id: Ref) -> (res: Option<&Instance>)
        ensures
            res is Some <==> self@.instances.contains_key(id),
            res matches Some(instance) ==> instance@ == self@.instances[id],
    {
        match self.nodes.get(&id.value) {
            Some(node) => Some(&node.instance),
            None => None,
        }
    }

    /// What is known of the instance that `id` refers to.
    pub fn get_meta(&self, id: Ref) -> (res: Option<&Meta>)
        ensures
            res is Some <==> self@.metas.contains_key(id),
            res matches Some(meta) ==> meta@ == self@.metas[id],
    {
        match self.nodes.get(&id.value) {
            Some(node) => Some(&node.meta),
            None => None,
        }
    }

    /// The instance that calls itself `id`, the first one added if several do.
    pub fn get_by_ref_id(&self, id: &String) -> (res: Option<Ref>)
        requires
            well_formed(self@),
        ensures
            res == claimant(self@, id@),
    {
        let mut i: usize = 0;
        while i < self.order.len()
            invariant
                well_formed(self@),
                0 <= i <= self.order.len(),
                claimant_in(self@.order.take(i as int), self@.metas, id@) is None,
            decreases self.order.len() - i,
        {
            let at = self.order[i];
            assert(self@.order.contains(at));
            assert(self@.order.take(i + 1).drop_last() =~= self@.order.take(i as int));
            if let Some(meta) = self.get_meta(at) {
                if let Some(own) = &meta.id {
                    if *own == *id {
                        proof {
                            lemma_claimant_stays(self@.order, self@.metas, id@, i + 1);
                        }
                        return Some(at);
                    }
                }
            }
            i = i + 1;
        }
        assert(self@.order.take(i as int) =~= self@.order);
        None
    }
}

proof fn lemma_claimant_stays(order: Seq<Ref>, metas: Map<Ref, MetaView>, id: Seq<char>, n: int)
    requires
        0 <= n <= order.len(),
        claimant_in(order.take(n), metas, id) is Some,
    ensures
        claimant_in(order, metas, id) == claimant_in(order.take(n), metas, id),
    decreases order.len(),
{
    if n == order.len() {
        assert(order.take(n) =~= order);
    } else {
        assert(order.drop_last().take(n) =~= order.take(n));
        lemma_claimant_stays(order.drop_last(), metas, id, n);
    }
}

/// `Ref::new` draws a referent at random. It never draws the one that points
/// at nothing; which of the others it is, nothing says.
#[verifier::external_body]
fn random_ref() -> (res: Ref)
    ensures
        res != nothing(),
{
    Ref { value: u128::from_str_radix(&Referent::new().to_string(), 16).unwrap() }
}

proof fn lemma_counted(taken: Set<u128>, n: nat)
    requires
        taken.finite(),
        n <= u128::MAX,
        forall|k: u128| 1 <= k <= n ==> taken.contains(k),
    ensures
        n <= taken.len(),
{
    let counted = Seq::new(n, |i: int| (i + 1) as u128);
    assert(counted.no_duplicates());
    counted.unique_seq_to_set();
    assert(counted.to_set().subset_of(taken)) by {
        assert forall|k: u128| counted.to_set().contains(k) implies taken.contains(k) by {
            let i = choose|i: int| 0 <= i < counted.len() && counted[i] == k;
            assert(k == i + 1);
        }
    }
    vstd::set_lib::lemma_len_subset(counted.to_set(), taken);
}

impl Tree {
    /// A referent that no instance of the tree goes by.
    fn free_ref(&self) -> (res: Ref)
        ensures
            res != nothing(),
            !self@.instances.contains_key(res),
    {
        let drawn = random_ref();
        if !self.nodes.contains_key(&drawn.value) {
            return drawn;
        }
        let count = self.nodes.len();
        let mut value: u128 = 1;
        while self.nodes.contains_key(&value)
            invariant
                count == self.nodes@.len(),
                1 <= value <= count + 1,
                forall|k: u128| 1 <= k < value ==> self.nodes@.contains_key(k),
            decreases count + 1 - value,
        {
            proof {
                lemma_counted(self.nodes@.dom(), value as nat);
            }
            value = value + 1;
        }
        Ref { value }
    }

    /// Adds a childless instance as the last child of its parent.
    fn add_leaf(&mut self, at: Ref, instance: Instance, meta: Meta)
        requires
            well_formed(old(self)@),
            old(self)@.instances.contains_key(instance@.parent),
            !old(self)@.instances.contains_key(at),
            at != nothing(),
            instance@.children.len() == 0,
        ensures
            final(self)@ == with_leaf(old(self)@, at, instance@, meta@),
            well_formed(final(self)@),
            extends(old(self)@, final(self)@, instance@.parent),
    {
        let parent = instance.parent;
        if let Some(mut above) = self.nodes.remove(&parent.value) {
            above.instance.children.push(at);
            self.nodes.insert(parent.value, above);
        }
        let ghost leaf = instance@;
        let ghost known = meta@;
        self.nodes.insert(at.value, Node { instance, meta });
        self.order.push(at);
        proof {
            let after = with_leaf(old(self)@, at, leaf, known);
            assert(self@.instances =~= after.instances);
            assert(self@.metas =~= after.metas);
            leaf_keeps_tree(old(self)@, at, leaf, known);
        }
    }

    /// Adds a snapshot as the last child of `parent`.
    fn add(&mut self, snapshot: Snapshot, parent: Ref) -> (id: Ref)
        requires
            well_formed(old(self)@),
            old(self)@.instances.contains_key(parent),
        ensures
            well_formed(final(self)@),
            extends(old(self)@, final(self)@, parent),
            !old(self)@.instances.contains_key(id),
            final(self)@.instances[parent].children == old(self)@.instances[parent].children.push(
                id,
            ),
            placed(final(self)@, id, parent, snapshot@),
            final(self)@.order.len() == old(self)@.order.len() + size(snapshot@),
            snapshot@.id != nothing() && !old(self)@.instances.contains_key(snapshot@.id) ==> id
                == snapshot@.id,
            brings_ids(snapshot@, old(self)@) ==> keeps_ids(final(self)@, id, snapshot@)
                && adds_only(old(self)@, final(self)@, seq![snapshot@]),
        decreases snapshot, 0nat,
    {
        broadcast use snapshot_shows_children;

        let ghost said = snapshot@;
        let ghost start = self@;
        let id = if !snapshot.id.is_none() && !self.nodes.contains_key(&snapshot.id.value) {
            snapshot.id
        } else {
            self.free_ref()
        };
        let instance = Instance {
            name: snapshot.name,
            class: snapshot.class,
            properties: snapshot.properties,
            parent,
            children: Vec::new(),
        };
        self.add_leaf(id, instance, snapshot.meta);
        let ghost planted = self@;
        let ghost kids = snapshots_of(snapshot.children@);
        self.add_children(snapshot.children, id);
        proof {
            extends_further(start, planted, self@, parent, id);
            assert(planted.instances.contains_key(parent));
            assert(said.children == kids);
            leaf_and_children_are_placed(start, planted, self@, id, parent, said);
            if brings_ids(said, start) {
                assert(holds_id(said, said.id));
            }
        }
        id
    }

    /// Adds the snapshots as the last children of `at`, in order.
    fn add_children(&mut self, children: Vec<Snapshot>, at: Ref)
        requires
            well_formed(old(self)@),
            old(self)@.instances.contains_key(at),
        ensures
            well_formed(final(self)@),
            extends(old(self)@, final(self)@, at),
            final(self)@.instances[at].children.len() == old(self)@.instances[at].children.len()
                + children.len(),
            forall|i: int|
                0 <= i < children.len() ==> placed(
                    final(self)@,
                    final(self)@.instances[at].children[old(self)@.instances[at].children.len()
                        + i],
                    at,
                    #[trigger] snapshots_of(children@)[i],
                ),
            final(self)@.order.len() == old(self)@.order.len() + size_of_all(
                snapshots_of(children@),
            ),
            all_bring_ids(snapshots_of(children@), old(self)@) ==> {
                &&& forall|i: int|
                    0 <= i < children.len() ==> keeps_ids(
                        final(self)@,
                        final(self)@.instances[at].children[old(self)@.instances[at].children.len() + i],
                        #[trigger] snapshots_of(children@)[i],
                    )
                &&& adds_only(old(self)@, final(self)@, snapshots_of(children@))
            },
        decreases children, 1nat,
    {
        broadcast use snapshot_shows_children;

        let ghost start = self@;
        let ghost first = start.instances[at].children.len();
        let ghost views = snapshots_of(children@);
        proof {
            extends_itself(start, at);
            assert(views.take(0) =~= Seq::empty());
        }
        for child in it: children
            invariant
                well_formed(self@),
                start.instances.contains_key(at),
                it.seq() == children@,
                extends(start, self@, at),
                first == start.instances[at].children.len(),
                views == snapshots_of(children@),
                self@.instances[at].children.len() == first + it.index(),
                forall|i: int|
                    0 <= i < it.index() ==> placed(
                        self@,
                        self@.instances[at].children[first + i],
                        at,
                        #[trigger] views[i],
                    ),
                self@.order.len() == start.order.len() + size_of_all(views.take(it.index() as int)),
                all_bring_ids(views, start) ==> {
                    &&& forall|i: int|
                        0 <= i < it.index() ==> keeps_ids(
                            self@,
                            self@.instances[at].children[first + i],
                            #[trigger] views[i],
                        )
                    &&& adds_only(start, self@, views.take(it.index() as int))
                },
        {
            let ghost before = self@;
            let ghost n = it.index();
            let ghost kids = before.instances[at].children;
            proof {
                assert(views[n] == child@);
                assert(views.take(n + 1).drop_last() =~= views.take(n));
                if all_bring_ids(views, start) {
                    assert forall|held: Ref| #[trigger] holds_id(views[n], held) implies
                        !before.instances.contains_key(held) by {
                        if before.instances.contains_key(held) {
                            let j = choose|j: int|
                                0 <= j < n && #[trigger] holds_id(views.take(n)[j], held);
                            assert(holds_id(views[j], held));
                        }
                    }
                    assert(brings_ids(views[n], before));
                }
            }
            self.add(child, at);
            proof {
                extends_further(start, before, self@, at, at);
                let depth = choose|depth: Map<Ref, nat>| #[trigger] ranked(before, depth);
                let grown = self@.instances[at].children;
                assert forall|i: int| 0 <= i < n + 1 implies placed(
                    self@,
                    grown[first + i],
                    at,
                    #[trigger] views[i],
                ) && (all_bring_ids(views, start) ==> keeps_ids(
                    self@,
                    grown[first + i],
                    views[i],
                )) by {
                    if i < n {
                        let kid = kids[first + i];
                        assert(grown[first + i] == kid);
                        assert(placed(before, kid, at, views[i]));
                        assert(before.instances.contains_key(before.instances[at].children[first
                            + i]));
                        if kid == before.root {
                            assert(before.instances[kid].parent == at);
                        }
                        placed_stays(before, self@, at, depth, kid, at, views[i]);
                    }
                }
                if all_bring_ids(views, start) {
                    assert forall|new: Ref| #[trigger]
                        self@.instances.contains_key(new) && !start.instances.contains_key(
                            new,
                        ) implies exists|i: int|
                        0 <= i < n + 1 && #[trigger] holds_id(views.take(n + 1)[i], new) by {
                        if before.instances.contains_key(new) {
                            let j = choose|j: int|
                                0 <= j < n && #[trigger] holds_id(views.take(n)[j], new);
                            assert(holds_id(views.take(n + 1)[j], new));
                        } else {
                            let j = choose|j: int|
                                0 <= j < 1 && #[trigger] holds_id(seq![views[n]][j], new);
                            assert(holds_id(views.take(n + 1)[n], new));
                        }
                    }
                }
            }
        }
        assert(views.take(views.len() as int) =~= views);
    }
}

proof fn lemma_shape_keeps_tree(before: TreeView, after: TreeView)
    requires
        well_formed(before),
        after.root == before.root,
        after.order == before.order,
        after.metas.dom() == before.metas.dom(),
        after.instances.dom() == before.instances.dom(),
        forall|id: Ref| #[trigger]
            before.instances.contains_key(id) ==> after.instances[id].parent
                == before.instances[id].parent && after.instances[id].children
                == before.instances[id].children,
    ensures
        well_formed(after),
{
    let depth = choose|depth: Map<Ref, nat>| #[trigger] ranked(before, depth);
    assert forall|id: Ref| after.instances.contains_key(id) <==> before.instances.contains_key(
        id,
    ) by {
        assert(after.instances.dom().contains(id) <==> before.instances.dom().contains(id));
    }
    assert forall|id: Ref| #[trigger] after.instances.contains_key(id) && id
        != after.root implies {
        let parent = after.instances[id].parent;
        &&& after.instances.contains_key(parent)
        &&& after.instances[parent].children.contains(id)
        &&& depth[parent] < depth[id]
    } by {
        assert(before.instances.contains_key(id));
        assert(before.instances.contains_key(before.instances[id].parent));
    }
    assert forall|id: Ref, i: int|
        after.instances.contains_key(id) && 0 <= i < after.instances[id].children.len() implies
        after.instances.contains_key(#[trigger] after.instances[id].children[i])
            && after.instances[after.instances[id].children[i]].parent == id by {
        assert(before.instances.contains_key(id));
        assert(before.instances.contains_key(before.instances[id].children[i]));
    }
    assert(ranked(after, depth));
}

impl Tree {
    /// Builds a tree whose root is the snapshot.
    pub fn new(snapshot: Snapshot) -> (res: Tree)
        ensures
            well_formed(res@),
            placed(res@, res@.root, nothing(), snapshot@),
            res@.order.len() == size(snapshot@),
            snapshot@.id != nothing() ==> res@.root == snapshot@.id,
            distinct_ids(snapshot@) && !holds_id(snapshot@, nothing()) ==> keeps_ids(
                res@,
                res@.root,
                snapshot@,
            ),
    {
        broadcast use snapshot_shows_children;

        let ghost said = snapshot@;
        let root = if snapshot.id.is_none() {
            random_ref()
        } else {
            snapshot.id
        };
        let instance = Instance {
            name: snapshot.name,
            class: snapshot.class,
            properties: snapshot.properties,
            parent: Ref::none(),
            children: Vec::new(),
        };
        let mut nodes: HashMap<u128, Node> = HashMap::new();
        nodes.insert(root.value, Node { instance, meta: snapshot.meta });
        let mut order: Vec<Ref> = Vec::new();
        order.push(root);
        let mut tree = Tree { root, nodes, order };
        let ghost planted = tree@;
        let ghost kids = snapshots_of(snapshot.children@);
        proof {
            assert(planted.metas.dom() =~= planted.instances.dom());
            assert(planted.order.contains(root)) by {
                assert(planted.order[0] == root);
            }
            assert(ranked(planted, Map::<Ref, nat>::empty()));
        }
        tree.add_children(snapshot.children, root);
        proof {
            assert(planted.instances.contains_key(root));
            assert(said.children == kids);
            let empty = TreeView {
                root,
                instances: Map::empty(),
                metas: Map::empty(),
                order: Seq::empty(),
            };
            leaf_and_children_are_placed(empty, planted, tree@, root, nothing(), said);
            if distinct_ids(said) && !holds_id(said, nothing()) {
                assert(brings_ids(said, empty));
            }
        }
        tree
    }

    /// Adds a snapshot as the last child of `parent`, unless there is no such
    /// instance. Returns the referent that the new instance goes by: the one
    /// of the snapshot, if it has one that is not taken yet.
    pub fn insert_instance(&mut self, snapshot: Snapshot, parent: Ref) -> (res: Option<Ref>)
        requires
            well_formed(old(self)@),
        ensures
            well_formed(final(self)@),
            res is Some <==> old(self)@.instances.contains_key(parent),
            res is None ==> final(self)@ == old(self)@,
            res matches Some(id) ==> {
                &&& extends(old(self)@, final(self)@, parent)
                &&& !old(self)@.instances.contains_key(id)
                &&& final(self)@.instances[parent].children
                    == old(self)@.instances[parent].children.push(id)
                &&& placed(final(self)@, id, parent, snapshot@)
                &&& final(self)@.order.len() == old(self)@.order.len() + size(snapshot@)
                &&& snapshot@.id != nothing() && !old(self)@.instances.contains_key(snapshot@.id)
                    ==> id == snapshot@.id
                &&& brings_ids(snapshot@, old(self)@) ==> keeps_ids(final(self)@, id, snapshot@)
            },
    {
        if !self.nodes.contains_key(&parent.value) {
            return None;
        }
        Some(self.add(snapshot, parent))
    }

    /// Replaces what is known of an instance, if there is such an instance.
    pub fn update_meta(&mut self, id: Ref, meta: Meta)
        requires
            well_formed(old(self)@),
        ensures
            final(self)@ == with_meta(old(self)@, id, meta@),
            well_formed(final(self)@),
    {
        let ghost known = meta@;
        if let Some(mut node) = self.nodes.remove(&id.value) {
            node.meta = meta;
            self.nodes.insert(id.value, node);
        }
        proof {
            let after = with_meta(old(self)@, id, known);
            assert(self@.instances =~= after.instances);
            assert(self@.metas =~= after.metas);
            assert(self@.metas.dom() =~= old(self)@.metas.dom());
            lemma_shape_keeps_tree(old(self)@, self@);
        }
    }

    /// The instances that hold references kept as paths, in the order in which
    /// they were added.
    pub fn ids_with_refs(&self) -> (res: Vec<Ref>)
        requires
            well_formed(self@),
        ensures
            res@ == holders(self@),
    {
        let mut res: Vec<Ref> = Vec::new();
        let mut i: usize = 0;
        while i < self.order.len()
            invariant
                well_formed(self@),
                0 <= i <= self.order.len(),
                res@ == holders_in(self@.order.take(i as int), self@.metas),
            decreases self.order.len() - i,
        {
            let at = self.order[i];
            assert(self@.order.contains(at));
            assert(self@.order.take(i + 1).drop_last() =~= self@.order.take(i as int));
            if let Some(meta) = self.get_meta(at) {
                if !has_no_paths(&meta.refs) {
                    res.push(at);
                }
            }
            i = i + 1;
        }
        assert(self@.order.take(i as int) =~= self@.order);
        res
    }

    /// Stores more properties on an instance, in place of what it has under
    /// the same names. Returns all the properties that the instance then has,
    /// if there is such an instance.
    pub fn extend_instance(&mut self, id: Ref, properties: Properties) -> (res: Option<Properties>)
        requires
            well_formed(old(self)@),
        ensures
            final(self)@ == with_properties(old(self)@, id, properties_view(properties)),
            well_formed(final(self)@),
            res is Some <==> old(self)@.instances.contains_key(id),
            res matches Some(all) ==> properties_view(all)
                == final(self)@.instances[id].properties,
    {
        let ghost more = properties_view(properties);
        let mut res: Option<Properties> = None;
        if let Some(mut node) = self.nodes.remove(&id.value) {
            extend_properties(&mut node.instance.properties, properties);
            res = Some(clone_properties(&node.instance.properties));
            self.nodes.insert(id.value, node);
        }
        proof {
            let after = with_properties(old(self)@, id, more);
            assert(self@.instances =~= after.instances);
            assert(self@.metas =~= after.metas);
            assert(self@.instances.dom() =~= old(self)@.instances.dom());
            lemma_shape_keeps_tree(old(self)@, self@);
        }
        res
    }
}

} // verus!
