//! Instances as a model file holds them.

use std::str::FromStr;

use rbx_dom_weak::types::Ref as Referent;
use rbx_dom_weak::{AHashMap, Instance as DomInstance, WeakDom};
use vstd::prelude::*;

use crate::growth::distinct_ids;
use crate::property::{properties_view, Properties, ValueView};
use crate::referent::Ref;
use crate::snapshot::{blank_meta, SnapshotView};

verus! {

#[verifier::external_type_specification]
#[verifier::external_body]
pub struct ExReferent(Referent);

#[verifier::external_type_specification]
#[verifier::external_body]
pub struct ExDomInstance(DomInstance);

#[verifier::external_type_specification]
#[verifier::external_body]
pub struct ExWeakDom(rbx_dom_weak::WeakDom);

/// The instances of a file by referent.
pub type RawDom = AHashMap<Referent, DomInstance>;

/// An instance taken out of a file.
pub struct FileInstance {
    pub name: String,
    pub class: String,
    pub properties: Properties,
    pub children: Vec<Ref>,
}

/// What an instance of a file holds.
pub struct FileInstanceView {
    pub name: Seq<char>,
    pub class: Seq<char>,
    pub properties: Map<Seq<char>, ValueView>,
    pub children: Seq<Ref>,
}

impl View for FileInstance {
    type V = FileInstanceView;

    open spec fn view(&self) -> FileInstanceView {
        FileInstanceView {
            name: self.name@,
            class: self.class@,
            properties: properties_view(self.properties),
            children: self.children@,
        }
    }
}

/// What instances a file holds, by the value of their referent.
pub uninterp spec fn dom_view(dom: WeakDom) -> Map<u128, FileInstanceView>;

/// What instances were taken over from a file, by the value of their referent.
pub uninterp spec fn raw_view(raw: AHashMap<Referent, DomInstance>) -> Map<u128, FileInstanceView>;

/// `WeakDom::get_by_ref` finds the instance stored under a referent, of which
/// the name and the children are handed out.
#[verifier::external_body]
pub(crate) fn look_up(dom: &WeakDom, id: Ref) -> (res: Option<(String, Vec<Ref>)>)
    ensures
        res is Some <==> dom_view(*dom).contains_key(id.value),
        res matches Some(found) ==> {
            &&& found.0@ == dom_view(*dom)[id.value].name
            &&& found.1@ == dom_view(*dom)[id.value].children
        },
{
    let id = Referent::from_str(&format!("{:032x}", id.value)).unwrap();
    dom.get_by_ref(id).map(|instance| {
        let children = instance.children().iter();
        let children = children.map(|child| Ref {
            value: u128::from_str_radix(&child.to_string(), 16).unwrap(),
        });
        (instance.name.clone(), children.collect())
    })
}

/// `WeakDom::into_raw` hands over the hash map that the instances are stored
/// in. It has no more entries than a `usize` can count.
#[verifier::external_body]
pub(crate) fn into_raw(dom: WeakDom) -> (res: RawDom)
    ensures
        raw_view(res) == dom_view(dom),
        raw_view(res).dom().finite(),
        raw_view(res).dom().len() <= usize::MAX,
{
    dom.into_raw().1
}

/// `AHashMap::remove` takes out the instance stored under a referent, if there
/// is one.
#[verifier::external_body]
pub(crate) fn take_out(raw: &mut RawDom, id: Ref) -> (res: Option<FileInstance>)
    ensures
        res is Some <==> raw_view(*old(raw)).contains_key(id.value),
        res matches Some(instance) ==> instance@ == raw_view(*old(raw))[id.value],
        raw_view(*final(raw)) == raw_view(*old(raw)).remove(id.value),
{
    let id = Referent::from_str(&format!("{:032x}", id.value)).unwrap();
    raw.remove(&id).map(|instance| {
        let children = instance.children().iter();
        let children = children.map(|child| Ref {
            value: u128::from_str_radix(&child.to_string(), 16).unwrap(),
        });
        FileInstance {
            children: children.collect(),
            name: instance.name,
            class: instance.class.to_string(),
            properties: instance.properties,
        }
    })
}

/// The instance `id` and its descendants over `n` generations are all there,
/// and there is none below those.
pub open spec fn complete(dom: Map<u128, FileInstanceView>, id: Ref, n: nat) -> bool
    decreases n,
{
    &&& dom.contains_key(id.value)
    &&& n == 0 ==> dom[id.value].children.len() == 0
    &&& n > 0 ==> forall|i: int|
        0 <= i < dom[id.value].children.len() ==> complete(
            dom,
            #[trigger] dom[id.value].children[i],
            (n - 1) as nat,
        )
}

/// The instance `id` of a file with its descendants over `n` generations.
pub open spec fn generations(dom: Map<u128, FileInstanceView>, id: Ref, n: nat) -> SnapshotView
    decreases n,
{
    let instance = dom[id.value];
    SnapshotView {
        id,
        meta: blank_meta(),
        name: instance.name,
        class: instance.class,
        properties: instance.properties,
        children: if n == 0 {
            Seq::empty()
        } else {
            Seq::new(
                instance.children.len(),
                |i: int| generations(dom, instance.children[i], (n - 1) as nat),
            )
        },
    }
}

/// The instance `id` of a file with all of its descendants.
pub open spec fn subtree(dom: Map<u128, FileInstanceView>, id: Ref) -> SnapshotView {
    generations(dom, id, choose|n: nat| complete(dom, id, n))
}

/// The instance `id` and all of its descendants are there, and none of them is
/// found below itself.
pub open spec fn present(dom: Map<u128, FileInstanceView>, id: Ref) -> bool {
    exists|n: nat| complete(dom, id, n)
}

/// The instance `id` and all of its descendants are there, and none of them is
/// found in two places.
pub open spec fn intact(dom: Map<u128, FileInstanceView>, id: Ref) -> bool {
    &&& present(dom, id)
    &&& distinct_ids(subtree(dom, id))
}

/// How far below an instance one looks does not matter once there is nothing
/// below that.
pub proof fn generations_are_settled(
    dom: Map<u128, FileInstanceView>,
    id: Ref,
    n: nat,
    m: nat,
)
    requires
        complete(dom, id, n),
        n <= m || complete(dom, id, m),
    ensures
        complete(dom, id, m),
        generations(dom, id, n) == generations(dom, id, m),
    decreases n + m,
{
    let kids = dom[id.value].children;
    if n > 0 && m > 0 {
        assert forall|i: int| 0 <= i < kids.len() implies complete(
            dom,
            #[trigger] kids[i],
            (m - 1) as nat,
        ) && generations(dom, kids[i], (n - 1) as nat) == generations(
            dom,
            kids[i],
            (m - 1) as nat,
        ) by {
            assert(complete(dom, dom[id.value].children[i], (n - 1) as nat));
            if n > m {
                assert(complete(dom, dom[id.value].children[i], (m - 1) as nat));
            }
            generations_are_settled(dom, kids[i], (n - 1) as nat, (m - 1) as nat);
        }
    }
    if m > 0 && n == 0 {
        assert(kids.len() == 0);
    }
    assert(generations(dom, id, n).children =~= generations(dom, id, m).children);
}

/// What is below an instance are its children and what is below those.
pub proof fn subtree_shows_children(dom: Map<u128, FileInstanceView>, id: Ref)
    requires
        present(dom, id),
    ensures
        dom.contains_key(id.value),
        subtree(dom, id).id == id,
        subtree(dom, id).name == dom[id.value].name,
        subtree(dom, id).class == dom[id.value].class,
        subtree(dom, id).properties == dom[id.value].properties,
        subtree(dom, id).children == Seq::new(
            dom[id.value].children.len(),
            |i: int| subtree(dom, dom[id.value].children[i]),
        ),
        forall|i: int|
            0 <= i < dom[id.value].children.len() ==> present(
                dom,
                #[trigger] dom[id.value].children[i],
            ),
{
    let n = choose|n: nat| complete(dom, id, n);
    let kids = dom[id.value].children;
    assert forall|i: int| 0 <= i < kids.len() implies present(dom, #[trigger] kids[i])
        && generations(dom, kids[i], (n - 1) as nat) == subtree(dom, kids[i]) by {
        assert(complete(dom, dom[id.value].children[i], (n - 1) as nat));
        let m = choose|m: nat| complete(dom, kids[i], m);
        generations_are_settled(dom, kids[i], (n - 1) as nat, m);
    }
    assert(subtree(dom, id).children =~= Seq::new(kids.len(), |i: int| subtree(dom, kids[i])));
}

/// An instance whose children are all there is there with all of its
/// descendants.
pub proof fn children_make_subtree(dom: Map<u128, FileInstanceView>, id: Ref)
    requires
        dom.contains_key(id.value),
        forall|i: int|
            0 <= i < dom[id.value].children.len() ==> present(
                dom,
                #[trigger] dom[id.value].children[i],
            ),
    ensures
        present(dom, id),
{
    let kids = dom[id.value].children;
    let n = lemma_common_generations(dom, kids);
    assert forall|i: int| 0 <= i < kids.len() implies complete(
        dom,
        #[trigger] dom[id.value].children[i],
        (n + 1 - 1) as nat,
    ) by {
        assert(complete(dom, kids[i], n));
    }
    assert(complete(dom, id, n + 1));
}

proof fn lemma_common_generations(dom: Map<u128, FileInstanceView>, ids: Seq<Ref>) -> (n: nat)
    requires
        forall|i: int| 0 <= i < ids.len() ==> present(dom, #[trigger] ids[i]),
    ensures
        forall|i: int| 0 <= i < ids.len() ==> complete(dom, #[trigger] ids[i], n),
    decreases ids.len(),
{
    if ids.len() == 0 {
        0
    } else {
        let init = ids.drop_last();
        let last = ids.last();
        assert forall|i: int| 0 <= i < init.len() implies present(dom, #[trigger] init[i]) by {
            assert(present(dom, ids[i]));
        }
        assert(present(dom, ids[ids.len() - 1]));
        let before = lemma_common_generations(dom, init);
        let own = choose|own: nat| complete(dom, last, own);
        let n = if before < own {
            own
        } else {
            before
        };
        assert forall|i: int| 0 <= i < ids.len() implies complete(dom, #[trigger] ids[i], n) by {
            if i < init.len() {
                assert(complete(dom, init[i], before));
                generations_are_settled(dom, ids[i], before, n);
            } else {
                generations_are_settled(dom, ids[i], own, n);
            }
        }
        n
    }
}

} // verus!
