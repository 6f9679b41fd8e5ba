//! Describing where an instance is, and finding it again.

use vstd::prelude::*;

use crate::lineage::{
    hops_stay_inside, level_after_hops, level_is_unique, meeting_is_unique, nowhere_is_final,
    shared_name_is_not_entered, sole_child_is_entered, some_hops_meet,
};
use crate::model::{
    absolute_path, ambiguous_step, child_named, clear_steps, climbed, described, descended, entered,
    level, lives_under, meets_at, names_of_path, resolved, shared_name, sole_child_named, start_of,
    steps_to, unambiguous, well_formed, TreeView,
};
use crate::ref_path::RefPath;
use crate::referent::{nothing, Ref};
use crate::text::names_of;
use crate::tree::Tree;

verus! {

/// The instance and all of its ancestors, ending with the root.
pub open spec fn lineage(tree: TreeView, id: Ref) -> Seq<Ref> {
    Seq::new(level(tree, id) + 1, |i: int| climbed(tree, id, i as nat)->0)
}

/// Lists the instance and all of its ancestors, ending with the root.
fn ancestors(tree: &Tree, id: Ref) -> (res: Option<Vec<Ref>>)
    requires
        well_formed(tree@),
    ensures
        res is Some <==> tree@.instances.contains_key(id),
        res matches Some(list) ==> list@ == lineage(tree@, id),
{
    let root = tree.root_ref();
    if tree.get_instance(id).is_none() {
        return None;
    }
    proof {
        hops_stay_inside(tree@, id);
    }
    let mut list: Vec<Ref> = Vec::new();
    list.push(id);
    let mut current = id;
    assert(list@ =~= lineage(tree@, id).take(1));
    while current != root
        invariant
            well_formed(tree@),
            tree@.instances.contains_key(id),
            root == tree@.root,
            1 <= list.len() <= level(tree@, id) + 1,
            list@ == lineage(tree@, id).take(list.len() as int),
            climbed(tree@, id, (list.len() - 1) as nat) == Some(current),
            tree@.instances.contains_key(current),
        decreases level(tree@, id) + 1 - list.len(),
    {
        proof {
            hops_stay_inside(tree@, id);
            if list.len() == level(tree@, id) + 1 {
                assert(false);
            }
        }
        let ghost up = (list.len() - 1) as nat;
        match tree.get_instance(current) {
            Some(instance) => {
                current = instance.parent();
            },
            None => {
                return None;
            },
        }
        assert(climbed(tree@, id, up + 1) == Some(current));
        if current.is_none() {
            return None;
        }
        list.push(current);
        assert(list@ =~= lineage(tree@, id).take(list.len() as int));
    }
    proof {
        level_is_unique(tree@, id, (list.len() - 1) as nat);
    }
    assert(lineage(tree@, id).take(list.len() as int) =~= lineage(tree@, id));
    Some(list)
}

/// Returns the name of an instance, but only when no sibling of it answers to
/// the same name.
///
/// A shared name cannot be written into a path, as there would be no way of
/// telling which of them was meant when reading it back. Instances like that
/// have to be given an id to be referenced at all.
fn unambiguous_name(tree: &Tree, id: Ref) -> (res: Option<String>)
    requires
        well_formed(tree@),
    ensures
        res is Some <==> tree@.instances.contains_key(id) && unambiguous(tree@, id),
        res matches Some(name) ==> name@ == tree@.instances[id].name,
{
    let instance = match tree.get_instance(id) {
        Some(instance) => instance,
        None => {
            return None;
        },
    };
    let ghost name = instance@.name;
    let ghost parent = instance@.parent;
    if let Some(above) = tree.get_instance(instance.parent()) {
        let siblings = above.children();
        let mut i: usize = 0;
        while i < siblings.len()
            invariant
                well_formed(tree@),
                tree@.instances.contains_key(id),
                instance@ == tree@.instances[id],
                name == instance@.name,
                parent == instance@.parent,
                tree@.instances.contains_key(parent),
                siblings@ == tree@.instances[parent].children,
                0 <= i <= siblings.len(),
                forall|k: int|
                    0 <= k < i && child_named(tree@, parent, name, #[trigger] siblings@[k])
                        ==> siblings@[k] == id,
            decreases siblings.len() - i,
        {
            let sibling = siblings[i];
            if sibling != id {
                if let Some(other) = tree.get_instance(sibling) {
                    if other.name == instance.name {
                        assert(child_named(tree@, parent, name, sibling));
                        return None;
                    }
                }
            }
            i = i + 1;
        }
        assert forall|other: Ref| #[trigger] child_named(tree@, parent, name, other) implies other
            == id by {
            let k = choose|k: int| 0 <= k < siblings@.len() && siblings@[k] == other;
            assert(child_named(tree@, parent, name, siblings@[k]));
        }
    }
    Some(instance.name.clone())
}

/// The position of `id` in `list`.
fn position_of(list: &Vec<Ref>, id: Ref) -> (res: Option<usize>)
    ensures
        res is Some <==> list@.contains(id),
        res matches Some(i) ==> i < list.len() && list@[i as int] == id,
{
    let mut i: usize = 0;
    while i < list.len()
        invariant
            0 <= i <= list.len(),
            forall|k: int| 0 <= k < i ==> list@[k] != id,
        decreases list.len() - i,
    {
        if list[i] == id {
            return Some(i);
        }
        i = i + 1;
    }
    None
}

/// The names that lead down to the first entry of `line` over the last `count`
/// steps, unless one of them is ambiguous.
fn names_down(tree: &Tree, line: &Vec<Ref>, count: usize, Ghost(target): Ghost<Ref>) -> (res: Option<
    Vec<String>,
>)
    requires
        well_formed(tree@),
        tree@.instances.contains_key(target),
        line@ == lineage(tree@, target),
        count < line.len(),
    ensures
        res is Some <==> clear_steps(tree@, target, count as nat),
        res matches Some(names) ==> names_of(names@) == steps_to(tree@, target, count as nat),
{
    let mut names: Vec<String> = Vec::new();
    let ghost steps = steps_to(tree@, target, count as nat);
    assert(names_of(names@) =~= steps.take(0));
    proof {
        hops_stay_inside(tree@, target);
    }
    while names.len() < count
        invariant
            well_formed(tree@),
            tree@.instances.contains_key(target),
            line@ == lineage(tree@, target),
            count < line.len(),
            names.len() <= count,
            steps == steps_to(tree@, target, count as nat),
            names_of(names@) == steps.take(names.len() as int),
            forall|up: nat|
                count - names.len() <= up < count ==> unambiguous(
                    tree@,
                    (#[trigger] climbed(tree@, target, up))->0,
                ),
            forall|up: nat|
                up <= level(tree@, target) ==> (#[trigger] climbed(tree@, target, up)) is Some
                    && tree@.instances.contains_key(climbed(tree@, target, up)->0),
        decreases count - names.len(),
    {
        let i: usize = count - 1 - names.len();
        let ghost before = names_of(names@);
        assert(line@[i as int] == climbed(tree@, target, i as nat)->0);
        match unambiguous_name(tree, line[i]) {
            Some(name) => {
                names.push(name);
                assert(names_of(names@) =~= before.push(name@));
                assert(names_of(names@) =~= steps.take(names.len() as int));
            },
            None => {
                assert(!unambiguous(tree@, climbed(tree@, target, i as nat)->0));
                return None;
            },
        }
    }
    assert(steps.take(count as int) =~= steps);
    Some(names)
}

/// Which children of an instance answer to a name.
enum Answer {
    Nobody,
    One(Ref),
    Several,
}

/// Asks the children of `at` which of them answer to `name`.
fn ask(tree: &Tree, at: Ref, name: &String) -> (res: Answer)
    requires
        well_formed(tree@),
    ensures
        match res {
            Answer::Nobody => forall|any: Ref| !#[trigger] child_named(tree@, at, name@, any),
            Answer::One(child) => sole_child_named(tree@, at, name@, child),
            Answer::Several => shared_name(tree@, at, name@),
        },
{
    let children = match tree.get_instance(at) {
        Some(instance) => instance.children(),
        None => {
            return Answer::Nobody;
        },
    };
    let mut found: Option<Ref> = None;
    let mut i: usize = 0;
    while i < children.len()
        invariant
            well_formed(tree@),
            tree@.instances.contains_key(at),
            children@ == tree@.instances[at].children,
            0 <= i <= children.len(),
            match found {
                Some(child) => {
                    &&& child_named(tree@, at, name@, child)
                    &&& children@.take(i as int).contains(child)
                    &&& forall|k: int|
                        0 <= k < i && child_named(tree@, at, name@, #[trigger] children@[k])
                            ==> children@[k] == child
                },
                None => forall|k: int|
                    0 <= k < i ==> !child_named(tree@, at, name@, #[trigger] children@[k]),
            },
        decreases children.len() - i,
    {
        let child = children[i];
        assert(children@.contains(child));
        let named = match tree.get_instance(child) {
            Some(instance) => instance.name == *name,
            None => false,
        };
        assert(named == child_named(tree@, at, name@, child));
        assert(children@.take(i + 1) =~= children@.take(i as int).push(child));
        if named {
            match found {
                Some(first) => {
                    proof {
                        let k = choose|k: int| 0 <= k < i && children@.take(i as int)[k] == first;
                        assert(children@[k] == first);
                        assert(children@.no_duplicates());
                        assert(first != child);
                    }
                    return Answer::Several;
                },
                None => {
                    found = Some(child);
                    assert(children@.take(i + 1).last() == child);
                },
            }
        } else {
            proof {
                if let Some(first) = found {
                    let k = choose|k: int| 0 <= k < i && children@.take(i as int)[k] == first;
                    assert(children@.take(i + 1)[k] == first);
                }
            }
        }
        i = i + 1;
    }
    proof {
        assert forall|any: Ref| #[trigger] child_named(tree@, at, name@, any) implies found == Some(
            any,
        ) by {
            let k = choose|k: int| 0 <= k < children@.len() && children@[k] == any;
            assert(child_named(tree@, at, name@, children@[k]));
        }
    }
    match found {
        Some(child) => Answer::One(child),
        None => Answer::Nobody,
    }
}

/// The child of `at` that answers to `name`, unless more than one does.
///
/// Picking the first of several instances that all answer to the same name
/// would quietly point the reference at the wrong one.
fn enter(tree: &Tree, at: Ref, name: &String) -> (res: Option<Ref>)
    requires
        well_formed(tree@),
    ensures
        res == entered(tree@, at, name@),
{
    match ask(tree, at, name) {
        Answer::Nobody => None,
        Answer::One(child) => {
            proof {
                sole_child_is_entered(tree@, at, name@, child);
            }
            Some(child)
        },
        Answer::Several => {
            proof {
                shared_name_is_not_entered(tree@, at, name@);
            }
            None
        },
    }
}

/// Makes `up` hops towards the root from `from`, unless they lead past it.
fn climb(tree: &Tree, from: Ref, up: usize) -> (res: Option<Ref>)
    requires
        well_formed(tree@),
    ensures
        res == match climbed(tree@, from, up as nat) {
            Some(at) => if at == nothing() {
                None
            } else {
                Some(at)
            },
            None => None,
        },
{
    let mut current = from;
    let mut made: usize = 0;
    while made < up
        invariant
            well_formed(tree@),
            0 <= made <= up,
            climbed(tree@, from, made as nat) == Some(current),
        decreases up - made,
    {
        assert(climbed(tree@, from, (made + 1) as nat) == if tree@.instances.contains_key(current) {
            Some(tree@.instances[current].parent)
        } else {
            None
        });
        match tree.get_instance(current) {
            Some(instance) => {
                current = instance.parent();
            },
            None => {
                proof {
                    nowhere_is_final(tree@, from, (made + 1) as nat, (up - made - 1) as nat);
                    assert((made + 1) as nat + (up - made - 1) as nat == up as nat);
                }
                return None;
            },
        }
        made = made + 1;
    }
    // Walking past the root lands on the parent of it, which is no instance at
    // all.
    if current.is_none() {
        None
    } else {
        Some(current)
    }
}

impl RefPath {
    /// Describes where `target` is, as seen from `from`.
    ///
    /// An id survives the instance being renamed or moved, so it is always the
    /// better way to describe where it is. Otherwise the path stays relative
    /// to the closest instance both of them live under, so that moving or
    /// renaming anything above it does not turn the reference into a dangling
    /// one.
    pub fn between(tree: &Tree, from: Ref, target: Ref) -> (res: Option<RefPath>)
        requires
            well_formed(tree@),
        ensures
            res is Some <==> described(tree@, from, target) is Some,
            res matches Some(path) ==> described(tree@, from, target) == Some(path@),
    {
        if let Some(meta) = tree.get_meta(target) {
            if let Some(id) = &meta.id {
                return Some(RefPath::Id(id.clone()));
            }
        }
        if tree.get_instance(from).is_none() {
            return RefPath::absolute(tree, target);
        }
        if from == target {
            return match unambiguous_name(tree, from) {
                Some(name) => {
                    let mut down: Vec<String> = Vec::new();
                    down.push(name);
                    assert(names_of(down@) =~= seq![tree@.instances[from].name]);
                    Some(RefPath::Relative { up: 1, down })
                },
                None => None,
            };
        }
        let line = match ancestors(tree, from) {
            Some(line) => line,
            None => {
                return None;
            },
        };
        let target_line = match ancestors(tree, target) {
            Some(line) => line,
            None => {
                return None;
            },
        };
        proof {
            hops_stay_inside(tree@, from);
            hops_stay_inside(tree@, target);
        }
        let mut up: usize = 0;
        while up < line.len()
            invariant
                well_formed(tree@),
                tree@.instances.contains_key(from),
                tree@.instances.contains_key(target),
                from != target,
                !(tree@.metas.contains_key(target) && tree@.metas[target].id is Some),
                line@ == lineage(tree@, from),
                target_line@ == lineage(tree@, target),
                0 <= up <= line.len(),
                forall|up: nat|
                    up <= level(tree@, from) ==> (#[trigger] climbed(tree@, from, up)) is Some,
                forall|up: nat|
                    up <= level(tree@, target) ==> (#[trigger] climbed(tree@, target, up)) is Some,
                forall|less: nat|
                    less < up ==> !lives_under(
                        tree@,
                        target,
                        (#[trigger] climbed(tree@, from, less))->0,
                    ),
            decreases line.len() - up,
        {
            let common = line[up];
            assert(common == climbed(tree@, from, up as nat)->0);
            if let Some(count) = position_of(&target_line, common) {
                proof {
                    assert(target_line@[count as int] == climbed(tree@, target, count as nat)->0);
                    assert(climbed(tree@, target, count as nat) == Some(common));
                    assert(lives_under(tree@, target, common));
                    assert(meets_at(tree@, from, target, up as nat));
                    meeting_is_unique(tree@, from, target, up as nat);
                    level_after_hops(tree@, from, up as nat);
                    level_after_hops(tree@, target, count as nat);
                }
                return match names_down(tree, &target_line, count, Ghost(target)) {
                    Some(down) => Some(RefPath::Relative { up, down }),
                    None => None,
                };
            }
            proof {
                if lives_under(tree@, target, common) {
                    let k = choose|k: nat|
                        k <= level(tree@, target) && #[trigger] climbed(tree@, target, k) == Some(
                            common,
                        );
                    assert(target_line@[k as int] == common);
                }
            }
            up = up + 1;
        }
        proof {
            let met = some_hops_meet(tree@, from, target);
            assert(lives_under(tree@, target, climbed(tree@, from, met)->0));
        }
        None
    }

    /// Describes where `target` is, as seen from the root of the tree.
    pub fn absolute(tree: &Tree, target: Ref) -> (res: Option<RefPath>)
        requires
            well_formed(tree@),
        ensures
            res is Some <==> absolute_path(tree@, target) is Some,
            res matches Some(path) ==> absolute_path(tree@, target) == Some(path@),
    {
        let line = match ancestors(tree, target) {
            Some(line) => line,
            None => {
                return None;
            },
        };
        let count: usize = line.len() - 1;
        if count == 0 {
            return None;
        }
        match names_down(tree, &line, count, Ghost(target)) {
            Some(names) => Some(RefPath::Absolute(names)),
            None => None,
        }
    }

    /// Looks up the instance this path points at, starting from `from` when
    /// the path is relative.
    pub fn resolve(&self, tree: &Tree, from: Ref) -> (res: Option<Ref>)
        requires
            well_formed(tree@),
        ensures
            res == resolved(tree@, self@, from),
    {
        match self {
            RefPath::Id(id) => tree.get_by_ref_id(id),
            RefPath::Absolute(down) => descend(tree, tree.root_ref(), down),
            RefPath::Relative { up, down } => match climb(tree, from, *up) {
                Some(at) => descend(tree, at, down),
                None => None,
            },
        }
    }

    /// The name at which following this path fails, if that is because more
    /// than one instance answers to it.
    pub fn ambiguous_name(&self, tree: &Tree, from: Ref) -> (res: Option<String>)
        requires
            well_formed(tree@),
        ensures
            res is Some <==> exists|step: int| #[trigger] ambiguous_step(tree@, self@, from, step),
            res matches Some(name) ==> exists|step: int| #[trigger]
                ambiguous_step(tree@, self@, from, step) && name@ == names_of_path(self@)[step],
    {
        let (start, names) = match self {
            RefPath::Id(_) => {
                return None;
            },
            RefPath::Absolute(down) => (Some(tree.root_ref()), down),
            RefPath::Relative { up, down } => (climb(tree, from, *up), down),
        };
        let mut current = match start {
            Some(at) => at,
            None => {
                return None;
            },
        };
        let ghost at = current;
        let ghost all = names_of_path(self@);
        let mut i: usize = 0;
        assert(all.take(0) =~= Seq::empty());
        while i < names.len()
            invariant
                well_formed(tree@),
                all == names_of(names@),
                all == names_of_path(self@),
                start_of(tree@, self@, from) == Some(at),
                0 <= i <= names.len(),
                descended(tree@, at, all.take(i as int)) == Some(current),
                forall|step: int|
                    0 <= step < i ==> !#[trigger] ambiguous_step(tree@, self@, from, step),
            decreases names.len() - i,
        {
            assert(all.take(i + 1).drop_last() =~= all.take(i as int));
            match ask(tree, current, &names[i]) {
                Answer::One(child) => {
                    proof {
                        sole_child_is_entered(tree@, current, all[i as int], child);
                        assert(!ambiguous_step(tree@, self@, from, i as int));
                    }
                    current = child;
                },
                Answer::Several => {
                    assert(ambiguous_step(tree@, self@, from, i as int));
                    return Some(names[i].clone());
                },
                Answer::Nobody => {
                    proof {
                        assert(entered(tree@, current, all[i as int]) is None);
                        assert forall|step: int|
                            !#[trigger] ambiguous_step(tree@, self@, from, step) by {
                            if i < step < all.len() {
                                assert(all.take(step).take(i + 1) =~= all.take(i + 1));
                                dead_end_is_final(tree@, at, all.take(step), i + 1);
                            }
                        }
                    }
                    return None;
                },
            }
            i = i + 1;
        }
        None
    }
}

/// Follows the names down from `at`.
fn descend(tree: &Tree, at: Ref, names: &Vec<String>) -> (res: Option<Ref>)
    requires
        well_formed(tree@),
    ensures
        res == descended(tree@, at, names_of(names@)),
{
    let mut current = at;
    let mut i: usize = 0;
    let ghost all = names_of(names@);
    while i < names.len()
        invariant
            well_formed(tree@),
            all == names_of(names@),
            0 <= i <= names.len(),
            descended(tree@, at, all.take(i as int)) == Some(current),
        decreases names.len() - i,
    {
        assert(all.take(i + 1).drop_last() =~= all.take(i as int));
        match enter(tree, current, &names[i]) {
            Some(child) => {
                current = child;
            },
            None => {
                proof {
                    dead_end_is_final(tree@, at, all, i + 1);
                }
                return None;
            },
        }
        i = i + 1;
    }
    assert(all.take(i as int) =~= all);
    Some(current)
}

/// Names that lead nowhere lead nowhere when more of them follow.
pub proof fn dead_end_is_final(tree: TreeView, at: Ref, names: Seq<Seq<char>>, n: int)
    requires
        0 <= n <= names.len(),
        descended(tree, at, names.take(n)) is None,
    ensures
        descended(tree, at, names) is None,
    decreases names.len(),
{
    if n == names.len() {
        assert(names.take(n) =~= names);
    } else {
        assert(names.drop_last().take(n) =~= names.take(n));
        dead_end_is_final(tree, at, names.drop_last(), n);
    }
}

} // verus!
