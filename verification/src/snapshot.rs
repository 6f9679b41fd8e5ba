//! Instances on their way into a tree or out of it.

use vstd::prelude::*;

use crate::property::{
    insert_property, no_paths, no_properties, paths_view, properties_view, Properties, RefPaths,
    Value, ValueView,
};
use crate::ref_path::PathView;
use crate::referent::{nothing, Ref};

verus! {

/// What optional text holds.
pub open spec fn text_of(text: Option<String>) -> Option<Seq<char>> {
    match text {
        Some(text) => Some(text@),
        None => None,
    }
}

/// What is known of an instance besides its properties.
#[derive(Debug, Clone)]
pub struct Meta {
    /// The name the instance gave itself for others to point at.
    pub id: Option<String>,
    /// The paths of the references the instance holds.
    pub refs: RefPaths,
    /// Where the mesh of the instance comes from.
    pub mesh_source: Option<String>,
}

/// What a [`Meta`] says.
pub struct MetaView {
    pub id: Option<Seq<char>>,
    pub refs: Map<Seq<char>, PathView>,
    pub mesh_source: Option<Seq<char>>,
}

impl View for Meta {
    type V = MetaView;

    open spec fn view(&self) -> MetaView {
        MetaView {
            id: text_of(self.id),
            refs: paths_view(self.refs),
            mesh_source: text_of(self.mesh_source),
        }
    }
}

/// The meta that says nothing.
pub open spec fn blank_meta() -> MetaView {
    MetaView { id: None, refs: Map::empty(), mesh_source: None }
}

impl Meta {
    /// A meta that says nothing yet.
    pub fn new() -> (res: Meta)
        ensures
            res@ == blank_meta(),
    {
        Meta { id: None, refs: no_paths(), mesh_source: None }
    }

    /// Sets the name the instance gave itself.
    pub fn set_id(&mut self, id: Option<String>)
        ensures
            final(self)@ == (MetaView { id: text_of(id), ..old(self)@ }),
    {
        self.id = id;
    }

    /// Sets the paths of the references the instance holds.
    pub fn set_refs(&mut self, refs: RefPaths)
        ensures
            final(self)@ == (MetaView { refs: paths_view(refs), ..old(self)@ }),
    {
        self.refs = refs;
    }

    /// Sets where the mesh of the instance comes from.
    pub fn set_mesh_source(&mut self, source: Option<String>)
        ensures
            final(self)@ == (MetaView { mesh_source: text_of(source), ..old(self)@ }),
    {
        self.mesh_source = source;
    }
}

/// An instance together with its descendants, outside of any tree.
#[derive(Debug)]
pub struct Snapshot {
    pub id: Ref,
    pub meta: Meta,
    pub name: String,
    pub class: String,
    pub properties: Properties,
    pub children: Vec<Snapshot>,
}

/// What a [`Snapshot`] holds.
pub struct SnapshotView {
    pub id: Ref,
    pub meta: MetaView,
    pub name: Seq<char>,
    pub class: Seq<char>,
    pub properties: Map<Seq<char>, ValueView>,
    pub children: Seq<SnapshotView>,
}

/// What the snapshots of a list hold.
pub open spec fn snapshots_of(children: Seq<Snapshot>) -> Seq<SnapshotView> {
    Seq::new(children.len(), |i: int| children[i].view())
}

impl Snapshot {
    pub open spec fn view(&self) -> SnapshotView
        decreases self,
    {
        SnapshotView {
            id: self.id,
            meta: self.meta@,
            name: self.name@,
            class: self.class@,
            properties: properties_view(self.properties),
            children: Seq::new(
                self.children@.len(),
                |i: int|
                    if 0 <= i < self.children@.len() {
                        self.children@[i].view()
                    } else {
                        arbitrary()
                    },
            ),
        }
    }
}

/// A snapshot shows its children the way the list of them does.
pub broadcast proof fn snapshot_shows_children(snapshot: Snapshot)
    ensures
        (#[trigger] snapshot.view()).children == snapshots_of(snapshot.children@),
{
    assert(snapshot.view().children =~= snapshots_of(snapshot.children@));
}

impl Snapshot {
    /// A snapshot of an instance that nothing is known of yet.
    pub fn new() -> (res: Snapshot)
        ensures
            res@.id == nothing(),
            res@.meta == blank_meta(),
            res@.name.len() == 0,
            res@.class.len() == 0,
            res@.properties == Map::<Seq<char>, ValueView>::empty(),
            res@.children.len() == 0,
    {
        Snapshot {
            id: Ref::none(),
            meta: Meta::new(),
            name: String::new(),
            class: String::new(),
            properties: no_properties(),
            children: Vec::new(),
        }
    }

    /// The same snapshot with another id.
    pub fn with_id(self, id: Ref) -> (res: Snapshot)
        ensures
            res@ == (SnapshotView { id, ..self@ }),
    {
        broadcast use snapshot_shows_children;

        Snapshot { id, ..self }
    }

    /// The same snapshot with another meta.
    pub fn with_meta(self, meta: Meta) -> (res: Snapshot)
        ensures
            res@ == (SnapshotView { meta: meta@, ..self@ }),
    {
        broadcast use snapshot_shows_children;

        Snapshot { meta, ..self }
    }

    /// The same snapshot with another name.
    pub fn with_name(self, name: &str) -> (res: Snapshot)
        ensures
            res@ == (SnapshotView { name: name@, ..self@ }),
    {
        broadcast use snapshot_shows_children;

        Snapshot { name: name.to_owned(), ..self }
    }

    /// The same snapshot with another class.
    pub fn with_class(self, class: &str) -> (res: Snapshot)
        ensures
            res@ == (SnapshotView { class: class@, ..self@ }),
    {
        broadcast use snapshot_shows_children;

        Snapshot { class: class.to_owned(), ..self }
    }

    /// The same snapshot with other properties.
    pub fn with_properties(self, properties: Properties) -> (res: Snapshot)
        ensures
            res@ == (SnapshotView { properties: properties_view(properties), ..self@ }),
    {
        broadcast use snapshot_shows_children;

        Snapshot { properties, ..self }
    }

    /// The same snapshot with other children.
    pub fn with_children(self, children: Vec<Snapshot>) -> (res: Snapshot)
        ensures
            res@ == (SnapshotView { children: snapshots_of(children@), ..self@ }),
    {
        broadcast use snapshot_shows_children;

        Snapshot { children, ..self }
    }

    /// Stores a value in the property `name`.
    pub fn add_property(&mut self, name: &str, value: Value)
        ensures
            final(self)@ == (SnapshotView {
                properties: old(self)@.properties.insert(name@, value@),
                ..old(self)@
            }),
    {
        broadcast use snapshot_shows_children;

        insert_property(&mut self.properties, name, value);
    }
}

/// What the client has to be told of an instance that changed.
#[derive(Debug)]
pub struct UpdatedSnapshot {
    pub id: Ref,
    pub properties: Option<Properties>,
}

impl UpdatedSnapshot {
    /// An update that tells of no change yet.
    pub fn new(id: Ref) -> (res: UpdatedSnapshot)
        ensures
            res.id == id,
            res.properties is None,
    {
        UpdatedSnapshot { id, properties: None }
    }
}

} // verus!
