//! The names that lead to the instances of a model file.

use rbx_dom_weak::WeakDom;
use vstd::prelude::*;

use crate::dom::{
    complete, dom_view, generations, intact, look_up, present, subtree, subtree_shows_children,
    FileInstanceView,
};
use crate::growth::{distinct_ids, holds_id};
use crate::location::{insert_location, locations_view, no_locations, Locations};
use crate::referent::Ref;
use crate::refs::{collected, collected_below};
use crate::snapshot::SnapshotView;
use crate::text::{copy_names, names_of};

verus! {

/// There is nothing more than `n` generations below the instance `id`, if it
/// is there at all. Any of its descendants may be missing.
pub open spec fn ends(dom: Map<u128, FileInstanceView>, id: Ref, n: nat) -> bool
    decreases n,
{
    dom.contains_key(id.value) ==> {
        &&& n == 0 ==> dom[id.value].children.len() == 0
        &&& n > 0 ==> forall|i: int|
            0 <= i < dom[id.value].children.len() ==> ends(
                dom,
                #[trigger] dom[id.value].children[i],
                (n - 1) as nat,
            )
    }
}

/// No instance from `id` on is found below itself.
pub open spec fn acyclic(dom: Map<u128, FileInstanceView>, id: Ref) -> bool {
    exists|n: nat| ends(dom, id, n)
}

/// The names that lead to the instance `id` and to its descendants over `n`
/// generations, as far as they are there, on top of those that are known
/// already. `path` leads to `id` itself. An instance that is found in several
/// places is kept with the last of them, in a walk that visits an instance
/// after its children.
pub open spec fn named(
    dom: Map<u128, FileInstanceView>,
    id: Ref,
    n: nat,
    path: Seq<Seq<char>>,
    paths: Map<u128, Seq<Seq<char>>>,
) -> Map<u128, Seq<Seq<char>>>
    decreases n, 0nat,
{
    if !dom.contains_key(id.value) {
        paths
    } else if n == 0 {
        paths.insert(id.value, path)
    } else {
        named_below(dom, dom[id.value].children, (n - 1) as nat, path, paths).insert(id.value, path)
    }
}

/// The names that lead to the instances of a list and to their descendants
/// over `n` generations. `path` leads to the parent of the list.
pub open spec fn named_below(
    dom: Map<u128, FileInstanceView>,
    ids: Seq<Ref>,
    n: nat,
    path: Seq<Seq<char>>,
    paths: Map<u128, Seq<Seq<char>>>,
) -> Map<u128, Seq<Seq<char>>>
    decreases n, ids.len() + 1,
{
    if ids.len() == 0 {
        paths
    } else {
        let last = ids.last();
        named(
            dom,
            last,
            n,
            path.push(dom[last.value].name),
            named_below(dom, ids.drop_last(), n, path, paths),
        )
    }
}

/// The names that lead from the instance `id` to each of its descendants, and
/// none to `id` itself.
pub open spec fn names_below(dom: Map<u128, FileInstanceView>, id: Ref) -> Map<
    u128,
    Seq<Seq<char>>,
> {
    named(dom, id, choose|n: nat| ends(dom, id, n), Seq::empty(), Map::empty())
}

/// Maps every instance of the subtree to its path relative to the root of that
/// subtree, so that references inside of a single file can be described
/// without relying on where the file ends up in the tree.
pub(crate) fn ref_paths(dom: &WeakDom, id: Ref) -> (res: Locations)
    requires
        acyclic(dom_view(*dom), id),
    ensures
        locations_view(res) == names_below(dom_view(*dom), id),
        forall|other: Ref| #[trigger]
            locations_view(res).contains_key(other.value) <==> descends(
                dom_view(*dom),
                id,
                other,
            ),
{
    let ghost n = choose|n: nat| ends(dom_view(*dom), id, n);
    let mut paths = no_locations();
    let top: Vec<String> = Vec::new();
    assert(names_of(top@) =~= Seq::empty());
    collect_paths(dom, id, top, &mut paths, Ghost(n));
    proof {
        assert forall|other: Ref| #[trigger]
            locations_view(paths).contains_key(other.value) <==> descends(
                dom_view(*dom),
                id,
                other,
            ) by {
            names_lead_to_descendants(dom_view(*dom), id, other);
        }
    }
    paths
}

/// Records the names that lead to the instance and to its descendants.
fn collect_paths(
    dom: &WeakDom,
    id: Ref,
    path: Vec<String>,
    paths: &mut Locations,
    Ghost(n): Ghost<nat>,
)
    requires
        ends(dom_view(*dom), id, n),
    ensures
        locations_view(*final(paths)) == named(
            dom_view(*dom),
            id,
            n,
            names_of(path@),
            locations_view(*old(paths)),
        ),
    decreases n,
{
    let ghost start = locations_view(*paths);
    let ghost view = dom_view(*dom);
    let ghost below = (n - 1) as nat;
    let children = match look_up(dom, id) {
        Some((_, children)) => children,
        None => {
            return ;
        },
    };
    let mut i: usize = 0;
    assert(children@.take(0) =~= Seq::empty());
    while i < children.len()
        invariant
            0 <= i <= children.len(),
            view == dom_view(*dom),
            view.contains_key(id.value),
            ends(view, id, n),
            children@ == view[id.value].children,
            children.len() > 0 ==> n > 0 && below == n - 1,
            locations_view(*paths) == named_below(
                view,
                children@.take(i as int),
                below,
                names_of(path@),
                start,
            ),
        decreases children.len() - i,
    {
        let child = children[i];
        assert(ends(view, view[id.value].children[i as int], below));
        assert(children@.take(i + 1).drop_last() =~= children@.take(i as int));
        assert(children@.take(i + 1).last() == child);
        let ghost before = locations_view(*paths);
        let ghost own = names_of(path@).push(view[child.value].name);
        if let Some((name, _)) = look_up(dom, child) {
            let mut child_path = copy_names(&path);
            child_path.push(name);
            assert(names_of(child_path@) =~= names_of(path@).push(name@));
            collect_paths(dom, child, child_path, paths, Ghost(below));
        }
        assert(locations_view(*paths) == named(view, child, below, own, before));
        i = i + 1;
    }
    assert(children@.take(i as int) =~= children@);
    insert_location(paths, id.value, path);
}

/// How far below an instance one looks for names does not matter once there is
/// nothing below that.
pub proof fn names_are_settled(
    dom: Map<u128, FileInstanceView>,
    id: Ref,
    n: nat,
    m: nat,
    path: Seq<Seq<char>>,
    paths: Map<u128, Seq<Seq<char>>>,
)
    requires
        ends(dom, id, n),
        ends(dom, id, m),
    ensures
        named(dom, id, n, path, paths) == named(dom, id, m, path, paths),
    decreases n, 0nat,
{
    if dom.contains_key(id.value) {
        let kids = dom[id.value].children;
        if n > 0 && m > 0 {
            lemma_settled_below(dom, kids, (n - 1) as nat, (m - 1) as nat, path, paths);
        } else {
            assert(kids.len() == 0);
        }
    }
}

proof fn lemma_settled_below(
    dom: Map<u128, FileInstanceView>,
    ids: Seq<Ref>,
    n: nat,
    m: nat,
    path: Seq<Seq<char>>,
    paths: Map<u128, Seq<Seq<char>>>,
)
    requires
        forall|i: int| 0 <= i < ids.len() ==> ends(dom, #[trigger] ids[i], n),
        forall|i: int| 0 <= i < ids.len() ==> ends(dom, #[trigger] ids[i], m),
    ensures
        named_below(dom, ids, n, path, paths) == named_below(dom, ids, m, path, paths),
    decreases n, ids.len() + 1,
{
    if ids.len() > 0 {
        let init = ids.drop_last();
        let last = ids.last();
        assert forall|i: int| 0 <= i < init.len() implies ends(dom, #[trigger] init[i], n) && ends(
            dom,
            init[i],
            m,
        ) by {
            assert(ends(dom, ids[i], n));
        }
        lemma_settled_below(dom, init, n, m, path, paths);
        assert(ends(dom, ids[ids.len() - 1], n));
        names_are_settled(
            dom,
            last,
            n,
            m,
            path.push(dom[last.value].name),
            named_below(dom, init, n, path, paths),
        );
    }
}

proof fn lemma_complete_ends(dom: Map<u128, FileInstanceView>, id: Ref, n: nat)
    requires
        complete(dom, id, n),
    ensures
        ends(dom, id, n),
    decreases n,
{
    if n > 0 {
        let kids = dom[id.value].children;
        assert forall|i: int| 0 <= i < kids.len() implies ends(
            dom,
            #[trigger] dom[id.value].children[i],
            (n - 1) as nat,
        ) by {
            lemma_complete_ends(dom, kids[i], (n - 1) as nat);
        }
    }
}

proof fn lemma_complete_names(
    dom: Map<u128, FileInstanceView>,
    id: Ref,
    n: nat,
    path: Seq<Seq<char>>,
    paths: Map<u128, Seq<Seq<char>>>,
)
    requires
        complete(dom, id, n),
    ensures
        named(dom, id, n, path, paths) == collected(generations(dom, id, n), path, paths),
    decreases n, 0nat,
{
    let kids = dom[id.value].children;
    let file = generations(dom, id, n);
    if n > 0 {
        lemma_complete_names_below(dom, kids, (n - 1) as nat, path, paths, file.children);
    } else {
        assert(file.children =~= Seq::empty());
    }
}

proof fn lemma_complete_names_below(
    dom: Map<u128, FileInstanceView>,
    ids: Seq<Ref>,
    n: nat,
    path: Seq<Seq<char>>,
    paths: Map<u128, Seq<Seq<char>>>,
    files: Seq<SnapshotView>,
)
    requires
        files.len() == ids.len(),
        forall|i: int|
            0 <= i < ids.len() ==> complete(dom, #[trigger] ids[i], n) && files[i] == generations(
                dom,
                ids[i],
                n,
            ),
    ensures
        named_below(dom, ids, n, path, paths) == collected_below(files, path, paths),
    decreases n, ids.len() + 1,
{
    if ids.len() > 0 {
        let init = ids.drop_last();
        let last = ids.last();
        assert forall|i: int| 0 <= i < init.len() implies complete(dom, #[trigger] init[i], n)
            && files.drop_last()[i] == generations(dom, init[i], n) by {
            assert(complete(dom, ids[i], n));
        }
        lemma_complete_names_below(dom, init, n, path, paths, files.drop_last());
        assert(complete(dom, ids[ids.len() - 1], n));
        lemma_complete_names(
            dom,
            last,
            n,
            path.push(dom[last.value].name),
            named_below(dom, init, n, path, paths),
        );
    }
}

/// Where every instance is there and in one place, the names are those that
/// lead through the subtree.
pub proof fn intact_names_are_collected(dom: Map<u128, FileInstanceView>, id: Ref)
    requires
        present(dom, id),
    ensures
        acyclic(dom, id),
        names_below(dom, id) == collected(subtree(dom, id), Seq::empty(), Map::empty()),
{
    let n = choose|n: nat| complete(dom, id, n);
    lemma_complete_ends(dom, id, n);
    let m = choose|m: nat| ends(dom, id, m);
    names_are_settled(dom, id, n, m, Seq::empty(), Map::empty());
    lemma_complete_names(dom, id, n, Seq::empty(), Map::empty());
}

/// A way down through a file from `from` to `to`, over instances that are all
/// there.
pub open spec fn is_route(
    dom: Map<u128, FileInstanceView>,
    from: Ref,
    to: Ref,
    route: Seq<Ref>,
) -> bool {
    &&& route.len() > 0
    &&& route.first() == from
    &&& route.last() == to
    &&& forall|i: int| 0 <= i < route.len() ==> dom.contains_key((#[trigger] route[i]).value)
    &&& forall|i: int, j: int|
        0 <= i < route.len() && j == i + 1 && j < route.len() ==> dom[(
        #[trigger] route[i]).value].children.contains(#[trigger] route[j])
}

/// `other` is the instance `id` or one of its descendants.
pub open spec fn descends(dom: Map<u128, FileInstanceView>, id: Ref, other: Ref) -> bool {
    exists|route: Seq<Ref>| is_route(dom, id, other, route)
}

/// The names on the way, less that of where it begins.
pub open spec fn names_on(dom: Map<u128, FileInstanceView>, route: Seq<Ref>) -> Seq<Seq<char>> {
    Seq::new((route.len() - 1) as nat, |i: int| dom[route[i + 1].value].name)
}

/// What is known of `other` by the walk: the names on one of the ways to it,
/// if there is any, and otherwise what was known before.
spec fn told(
    dom: Map<u128, FileInstanceView>,
    id: Ref,
    other: Ref,
    path: Seq<Seq<char>>,
    before: Map<u128, Seq<Seq<char>>>,
    after: Map<u128, Seq<Seq<char>>>,
) -> bool {
    if descends(dom, id, other) {
        &&& after.contains_key(other.value)
        &&& exists|route: Seq<Ref>| #[trigger]
            is_route(dom, id, other, route) && after[other.value] == path + names_on(dom, route)
    } else {
        &&& after.contains_key(other.value) == before.contains_key(other.value)
        &&& after[other.value] == before[other.value]
    }
}

spec fn told_below(
    dom: Map<u128, FileInstanceView>,
    ids: Seq<Ref>,
    other: Ref,
    path: Seq<Seq<char>>,
    before: Map<u128, Seq<Seq<char>>>,
    after: Map<u128, Seq<Seq<char>>>,
) -> bool {
    if exists|i: int| 0 <= i < ids.len() && descends(dom, #[trigger] ids[i], other) {
        &&& after.contains_key(other.value)
        &&& exists|i: int, route: Seq<Ref>|
            0 <= i < ids.len() && #[trigger] is_route(dom, ids[i], other, route)
                && after[other.value] == path.push(dom[ids[i].value].name) + names_on(dom, route)
    } else {
        &&& after.contains_key(other.value) == before.contains_key(other.value)
        &&& after[other.value] == before[other.value]
    }
}

/// A way down from a child is one from its parent too.
pub proof fn longer_route(
    dom: Map<u128, FileInstanceView>,
    id: Ref,
    i: int,
    other: Ref,
    route: Seq<Ref>,
)
    requires
        dom.contains_key(id.value),
        0 <= i < dom[id.value].children.len(),
        is_route(dom, dom[id.value].children[i], other, route),
    ensures
        is_route(dom, id, other, seq![id] + route),
        names_on(dom, seq![id] + route) == seq![dom[dom[id.value].children[i].value].name]
            + names_on(dom, route),
{
    let longer = seq![id] + route;
    assert(longer.last() == route.last());
    assert forall|k: int| 0 <= k < longer.len() implies dom.contains_key(
        (#[trigger] longer[k]).value,
    ) by {
        if k > 0 {
            assert(longer[k] == route[k - 1]);
        }
    }
    assert forall|k: int, l: int|
        0 <= k < longer.len() && l == k + 1 && l < longer.len() implies dom[(
    #[trigger] longer[k]).value].children.contains(#[trigger] longer[l]) by {
        if k == 0 {
            assert(longer[1] == route[0]);
        } else {
            assert(longer[k] == route[k - 1]);
            assert(longer[l] == route[l - 1]);
        }
    }
    assert(names_on(dom, longer) =~= seq![dom[route[0].value].name] + names_on(dom, route));
}

/// A way down is at its end, or goes on through one of the children.
pub proof fn route_goes_on(
    dom: Map<u128, FileInstanceView>,
    id: Ref,
    other: Ref,
    route: Seq<Ref>,
) -> (i: int)
    requires
        is_route(dom, id, other, route),
        route.len() > 1,
    ensures
        0 <= i < dom[id.value].children.len(),
        is_route(dom, dom[id.value].children[i], other, route.skip(1)),
{
    let kids = dom[id.value].children;
    let rest = route.skip(1);
    assert(dom[route[0].value].children.contains(route[1]));
    let i = choose|i: int| 0 <= i < kids.len() && kids[i] == route[1];
    assert forall|k: int| 0 <= k < rest.len() implies dom.contains_key(
        (#[trigger] rest[k]).value,
    ) by {
        assert(rest[k] == route[k + 1]);
    }
    assert forall|k: int, l: int|
        0 <= k < rest.len() && l == k + 1 && l < rest.len() implies dom[(
    #[trigger] rest[k]).value].children.contains(#[trigger] rest[l]) by {
        assert(rest[k] == route[k + 1]);
        assert(rest[l] == route[l + 1]);
    }
    assert(rest.last() == route.last());
    i
}

proof fn lemma_named(
    dom: Map<u128, FileInstanceView>,
    id: Ref,
    n: nat,
    path: Seq<Seq<char>>,
    paths: Map<u128, Seq<Seq<char>>>,
    other: Ref,
)
    requires
        ends(dom, id, n),
    ensures
        told(dom, id, other, path, paths, named(dom, id, n, path, paths)),
    decreases n, 0nat,
{
    let kids = dom[id.value].children;
    let after = named(dom, id, n, path, paths);
    if !dom.contains_key(id.value) {
        assert forall|route: Seq<Ref>| !is_route(dom, id, other, route) by {
            if is_route(dom, id, other, route) {
                assert(dom.contains_key(route[0].value));
            }
        }
    } else if other == id {
        let route = seq![id];
        assert(is_route(dom, id, id, route));
        assert(path + names_on(dom, route) =~= path);
    } else {
        assert forall|route: Seq<Ref>| is_route(dom, id, other, route) implies route.len() > 1 by {}
        if n == 0 {
            assert forall|route: Seq<Ref>| !is_route(dom, id, other, route) by {
                if is_route(dom, id, other, route) {
                    let i = route_goes_on(dom, id, other, route);
                }
            }
        } else {
            lemma_named_below(dom, kids, (n - 1) as nat, path, paths, other);
            if exists|i: int| 0 <= i < kids.len() && descends(dom, #[trigger] kids[i], other) {
                let (i, route) = choose|i: int, route: Seq<Ref>|
                    0 <= i < kids.len() && #[trigger] is_route(dom, kids[i], other, route)
                        && after[other.value] == path.push(dom[kids[i].value].name) + names_on(
                        dom,
                        route,
                    );
                longer_route(dom, id, i, other, route);
                assert(path.push(dom[kids[i].value].name) + names_on(dom, route) =~= path
                    + names_on(dom, seq![id] + route));
            } else {
                assert forall|route: Seq<Ref>| !is_route(dom, id, other, route) by {
                    if is_route(dom, id, other, route) {
                        let i = route_goes_on(dom, id, other, route);
                        assert(descends(dom, kids[i], other));
                    }
                }
            }
        }
    }
}

proof fn lemma_named_below(
    dom: Map<u128, FileInstanceView>,
    ids: Seq<Ref>,
    n: nat,
    path: Seq<Seq<char>>,
    paths: Map<u128, Seq<Seq<char>>>,
    other: Ref,
)
    requires
        forall|i: int| 0 <= i < ids.len() ==> ends(dom, #[trigger] ids[i], n),
    ensures
        told_below(dom, ids, other, path, paths, named_below(dom, ids, n, path, paths)),
    decreases n, ids.len() + 1,
{
    if ids.len() > 0 {
        let init = ids.drop_last();
        let last = ids.last();
        let end = ids.len() - 1;
        assert forall|i: int| 0 <= i < init.len() implies ends(dom, #[trigger] init[i], n) by {
            assert(ends(dom, ids[i], n));
        }
        let before = named_below(dom, init, n, path, paths);
        let after = named_below(dom, ids, n, path, paths);
        lemma_named_below(dom, init, n, path, paths, other);
        assert(ends(dom, ids[end], n));
        let own = path.push(dom[last.value].name);
        lemma_named(dom, last, n, own, before, other);
        if descends(dom, last, other) {
            assert(descends(dom, ids[end], other));
            let route = choose|route: Seq<Ref>| #[trigger]
                is_route(dom, last, other, route) && after[other.value] == own + names_on(
                    dom,
                    route,
                );
            assert(is_route(dom, ids[end], other, route));
        } else if exists|i: int| 0 <= i < init.len() && descends(dom, #[trigger] init[i], other) {
            let (i, route) = choose|i: int, route: Seq<Ref>|
                0 <= i < init.len() && #[trigger] is_route(dom, init[i], other, route)
                    && before[other.value] == path.push(dom[init[i].value].name) + names_on(
                    dom,
                    route,
                );
            assert(is_route(dom, ids[i], other, route));
            assert(descends(dom, ids[i], other));
        } else {
            assert forall|i: int| 0 <= i < ids.len() implies !descends(
                dom,
                #[trigger] ids[i],
                other,
            ) by {
                if i < init.len() {
                    assert(init[i] == ids[i]);
                }
            }
        }
    }
}

/// Names are kept for exactly the instance `id` and those of its descendants
/// that are there, so for nothing if `id` itself is not. They are the names on
/// a way to it, without that of `id`.
pub proof fn names_lead_to_descendants(dom: Map<u128, FileInstanceView>, id: Ref, other: Ref)
    requires
        acyclic(dom, id),
    ensures
        names_below(dom, id).contains_key(other.value) <==> descends(dom, id, other),
        descends(dom, id, other) ==> exists|route: Seq<Ref>| #[trigger]
            is_route(dom, id, other, route) && names_below(dom, id)[other.value] == names_on(
                dom,
                route,
            ),
        dom.contains_key(id.value) ==> names_below(dom, id).contains_key(id.value) && names_below(
            dom,
            id,
        )[id.value] == Seq::<Seq<char>>::empty(),
        !dom.contains_key(id.value) ==> names_below(dom, id) == Map::<
            u128,
            Seq<Seq<char>>,
        >::empty(),
{
    let n = choose|n: nat| ends(dom, id, n);
    lemma_named(dom, id, n, Seq::empty(), Map::empty(), other);
    if descends(dom, id, other) {
        let route = choose|route: Seq<Ref>| #[trigger]
            is_route(dom, id, other, route) && names_below(dom, id)[other.value] == Seq::<
                Seq<char>,
            >::empty() + names_on(dom, route);
        assert(Seq::<Seq<char>>::empty() + names_on(dom, route) =~= names_on(dom, route));
    }
}

/// There is one way at most from `id` to `other`.
pub open spec fn found_once(dom: Map<u128, FileInstanceView>, id: Ref, other: Ref) -> bool {
    forall|one: Seq<Ref>, two: Seq<Ref>| #[trigger]
        is_route(dom, id, other, one) && #[trigger] is_route(dom, id, other, two) ==> one == two
}

/// The names that lead to a child are those that lead to its parent and its
/// own, as long as the child is found in one place. In two places it can be
/// kept with one of them only.
pub proof fn child_adds_its_name(
    dom: Map<u128, FileInstanceView>,
    id: Ref,
    parent: Ref,
    child: Ref,
)
    requires
        acyclic(dom, id),
        descends(dom, id, parent),
        dom[parent.value].children.contains(child),
        dom.contains_key(child.value),
        found_once(dom, id, child),
    ensures
        names_below(dom, id).contains_key(child.value),
        names_below(dom, id)[child.value] == names_below(dom, id)[parent.value].push(
            dom[child.value].name,
        ),
{
    names_lead_to_descendants(dom, id, parent);
    let way = choose|route: Seq<Ref>| #[trigger]
        is_route(dom, id, parent, route) && names_below(dom, id)[parent.value] == names_on(
            dom,
            route,
        );
    let on = way.push(child);
    assert forall|k: int| 0 <= k < on.len() implies dom.contains_key((#[trigger] on[k]).value) by {
        if k < way.len() {
            assert(on[k] == way[k]);
        }
    }
    assert forall|k: int, l: int| 0 <= k < on.len() && l == k + 1 && l < on.len() implies dom[(
    #[trigger] on[k]).value].children.contains(#[trigger] on[l]) by {
        assert(on[k] == way[k]);
        if l < way.len() {
            assert(on[l] == way[l]);
        }
    }
    assert(on.first() == way.first());
    assert(is_route(dom, id, child, on));
    names_lead_to_descendants(dom, id, child);
    let found = choose|route: Seq<Ref>| #[trigger]
        is_route(dom, id, child, route) && names_below(dom, id)[child.value] == names_on(
            dom,
            route,
        );
    assert(found == on);
    assert(names_on(dom, on) =~= names_on(dom, way).push(dom[child.value].name));
}

proof fn lemma_descendant_is_held(
    dom: Map<u128, FileInstanceView>,
    id: Ref,
    other: Ref,
    route: Seq<Ref>,
)
    requires
        present(dom, id),
        is_route(dom, id, other, route),
    ensures
        holds_id(subtree(dom, id), other),
    decreases route.len(),
{
    subtree_shows_children(dom, id);
    if route.len() > 1 {
        let i = route_goes_on(dom, id, other, route);
        let child = dom[id.value].children[i];
        assert(present(dom, dom[id.value].children[i]));
        lemma_descendant_is_held(dom, child, other, route.skip(1));
        assert(subtree(dom, id).children[i] == subtree(dom, child));
        assert(holds_id(subtree(dom, id).children[i], other));
    }
}

/// Where every instance is there and in one place, there is one way at most to
/// each of them.
pub proof fn intact_is_found_once(dom: Map<u128, FileInstanceView>, id: Ref, other: Ref)
    requires
        intact(dom, id),
    ensures
        found_once(dom, id, other),
{
    assert forall|one: Seq<Ref>, two: Seq<Ref>| #[trigger]
        is_route(dom, id, other, one) && #[trigger] is_route(dom, id, other, two) implies one
        == two by {
        lemma_one_route(dom, id, other, one, two);
    }
}

proof fn lemma_one_route(
    dom: Map<u128, FileInstanceView>,
    id: Ref,
    other: Ref,
    one: Seq<Ref>,
    two: Seq<Ref>,
)
    requires
        intact(dom, id),
        is_route(dom, id, other, one),
        is_route(dom, id, other, two),
    ensures
        one == two,
    decreases one.len(),
{
    let file = subtree(dom, id);
    let kids = dom[id.value].children;
    subtree_shows_children(dom, id);
    if one.len() > 1 {
        let i = route_goes_on(dom, id, other, one);
        assert(present(dom, dom[id.value].children[i]));
        lemma_descendant_is_held(dom, kids[i], other, one.skip(1));
        assert(file.children[i] == subtree(dom, kids[i]));
        assert(holds_id(file.children[i], other));
        assert(distinct_ids(file.children[i]));
        assert(!holds_id(file.children[i], file.id));
        assert(other != id);
        assert(two.len() > 1);
        let j = route_goes_on(dom, id, other, two);
        assert(present(dom, dom[id.value].children[j]));
        lemma_descendant_is_held(dom, kids[j], other, two.skip(1));
        assert(file.children[j] == subtree(dom, kids[j]));
        assert(holds_id(file.children[j], other));
        assert(i == j);
        lemma_one_route(dom, kids[i], other, one.skip(1), two.skip(1));
        assert(one =~= seq![id] + one.skip(1));
        assert(two =~= seq![id] + two.skip(1));
    } else if two.len() > 1 {
        let j = route_goes_on(dom, id, other, two);
        assert(present(dom, dom[id.value].children[j]));
        lemma_descendant_is_held(dom, kids[j], other, two.skip(1));
        assert(file.children[j] == subtree(dom, kids[j]));
        assert(!holds_id(file.children[j], file.id));
    } else {
        assert(one =~= two);
    }
}

} // verus!
