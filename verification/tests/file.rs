use argon_refs::dom_snapshot::{is_intact, snapshot_from_dom, try_snapshot_from_dom};
use argon_refs::ref_path::RefPath;
use argon_refs::referent::Ref;
use argon_refs::refs;
use argon_refs::snapshot::Snapshot;
use argon_refs::tree::Tree;
use rbx_dom_weak::types::{Ref as Referent, Variant};
use rbx_dom_weak::{ustr, AHashMap, InstanceBuilder, WeakDom};
use std::collections::HashMap;
use std::str::FromStr;

fn id(referent: Referent) -> Ref {
    Ref {
        value: u128::from_str_radix(&referent.to_string(), 16).unwrap(),
    }
}

fn model() -> (WeakDom, Referent, Referent, Referent) {
    let mut dom = WeakDom::new(InstanceBuilder::new("Model").with_name("Model"));
    let model = dom.root_ref();

    let root = dom.insert(model, InstanceBuilder::new("Part").with_name("Root"));
    let effects = dom.insert(model, InstanceBuilder::new("Folder").with_name("Effects"));
    let beam = dom.insert(effects, InstanceBuilder::new("Beam").with_name("Beam"));

    (dom, model, root, beam)
}

#[test]
fn references_inside_a_file_become_relative_paths() {
    let (mut dom, model, root, beam) = model();

    dom.get_by_ref_mut(model)
        .unwrap()
        .properties
        .insert(ustr("PrimaryPart"), Variant::Ref(root));

    dom.get_by_ref_mut(beam)
        .unwrap()
        .properties
        .insert(ustr("Attachment0"), Variant::Ref(root));

    assert!(is_intact(&dom, id(model)));
    let snapshot = snapshot_from_dom(dom, id(model), &HashMap::new());

    assert_eq!(
        snapshot
            .meta
            .refs
            .get(&ustr("PrimaryPart"))
            .map(RefPath::to_string),
        Some(".Root".to_owned())
    );
    assert!(!snapshot.properties.contains_key(&ustr("PrimaryPart")));

    let effects = snapshot
        .children
        .iter()
        .find(|child| child.name == "Effects")
        .unwrap();
    let beam = &effects.children[0];

    assert_eq!(
        beam.meta
            .refs
            .get(&ustr("Attachment0"))
            .map(RefPath::to_string),
        Some("^^Root".to_owned())
    );
    assert!(!beam.properties.contains_key(&ustr("Attachment0")));
}

#[test]
fn reference_leaving_a_file_is_dropped() {
    let (mut dom, model, ..) = model();

    dom.get_by_ref_mut(model)
        .unwrap()
        .properties
        .insert(ustr("PrimaryPart"), Variant::Ref(Referent::new()));

    assert!(is_intact(&dom, id(model)));
    let snapshot = snapshot_from_dom(dom, id(model), &HashMap::new());

    assert!(snapshot.meta.refs.is_empty());
    assert!(!snapshot.properties.contains_key(&ustr("PrimaryPart")));
}

#[test]
fn everything_else_is_read_as_it_is() {
    let (mut dom, model, root, _) = model();
    let part = dom.get_by_ref_mut(root).unwrap();
    part.properties
        .insert(ustr("Anchored"), Variant::Bool(true));
    part.properties
        .insert(ustr("Title"), Variant::String("Hull".into()));

    let snapshot = try_snapshot_from_dom(dom, id(model), &HashMap::new()).unwrap();

    assert!(snapshot.id.is_none());
    assert_eq!(snapshot.name, "Model");
    assert_eq!(snapshot.class, "Model");
    assert_eq!(snapshot.children.len(), 2);
    let part = &snapshot.children[0];
    assert_eq!(part.name, "Root");
    assert_eq!(part.class, "Part");
    assert_eq!(part.properties.len(), 2);
    assert_eq!(
        part.properties.get(&ustr("Anchored")),
        Some(&Variant::Bool(true))
    );
    assert_eq!(
        part.properties.get(&ustr("Title")),
        Some(&Variant::String("Hull".into()))
    );
    assert_eq!(snapshot.children[1].name, "Effects");
    assert_eq!(snapshot.children[1].children[0].class, "Beam");
}

#[test]
fn only_what_is_below_the_instance_is_read() {
    let (mut dom, model, root, beam) = model();
    let effects = dom.get_by_ref(beam).unwrap().parent();
    dom.get_by_ref_mut(beam)
        .unwrap()
        .properties
        .insert(ustr("Attachment0"), Variant::Ref(root));
    dom.get_by_ref_mut(beam)
        .unwrap()
        .properties
        .insert(ustr("Holder"), Variant::Ref(effects));

    let snapshot = try_snapshot_from_dom(dom, id(effects), &HashMap::new()).unwrap();

    assert!(model != effects);
    assert_eq!(snapshot.name, "Effects");
    let beam = &snapshot.children[0];
    assert!(beam.properties.is_empty());
    assert_eq!(beam.meta.refs.len(), 1);
    assert_eq!(
        beam.meta
            .refs
            .get(&ustr("Holder"))
            .map(RefPath::to_string),
        Some("^".to_owned())
    );
}

#[test]
fn only_meshes_have_a_source() {
    let mut dom = WeakDom::new(InstanceBuilder::new("Model"));
    let model = dom.root_ref();
    let mesh = dom.insert(model, InstanceBuilder::new("MeshPart"));
    dom.insert(model, InstanceBuilder::new("MeshPart"));
    let mut sources = HashMap::new();
    sources.insert(id(mesh).value, "hull.mesh".to_string());
    sources.insert(id(model).value, "model.mesh".to_string());

    let snapshot = try_snapshot_from_dom(dom, id(model), &sources).unwrap();

    assert_eq!(snapshot.meta.mesh_source, None);
    assert_eq!(
        snapshot.children[0].meta.mesh_source,
        Some("hull.mesh".to_string())
    );
    assert_eq!(snapshot.children[1].meta.mesh_source, None);
}

#[test]
fn missing_instance_cannot_be_read() {
    let (dom, ..) = model();
    let missing = id(Referent::new());

    assert!(!is_intact(&dom, missing));
    assert!(try_snapshot_from_dom(dom, missing, &HashMap::new()).is_none());
}

#[test]
fn missing_descendant_cannot_be_read() {
    let (dom, model, root, _) = model();
    let (root_ref, mut raw) = dom.into_raw();
    raw.remove(&root);
    let dom = WeakDom::from_raw(root_ref, raw);

    assert!(!is_intact(&dom, id(model)));
    assert!(try_snapshot_from_dom(dom, id(model), &HashMap::new()).is_none());
}

#[test]
fn instance_below_itself_cannot_be_read() {
    let one = Referent::from_str("1").unwrap();
    let two = Referent::from_str("2").unwrap();
    let there = WeakDom::new(
        InstanceBuilder::new("Folder")
            .with_referent(one)
            .with_child(InstanceBuilder::new("Folder").with_referent(two)),
    );
    let back = WeakDom::new(
        InstanceBuilder::new("Folder")
            .with_referent(two)
            .with_child(InstanceBuilder::new("Folder").with_referent(one)),
    );
    let mut raw: AHashMap<_, _> = AHashMap::default();
    raw.insert(one, there.into_raw().1.remove(&one).unwrap());
    raw.insert(two, back.into_raw().1.remove(&two).unwrap());
    let dom = WeakDom::from_raw(one, raw);

    assert!(!is_intact(&dom, id(one)));
    assert!(try_snapshot_from_dom(dom, id(one), &HashMap::new()).is_none());
}

#[test]
fn instance_in_two_places_cannot_be_read() {
    let shared = Referent::from_str("3").unwrap();
    let mut dom = WeakDom::new(InstanceBuilder::new("Model"));
    let model = dom.root_ref();
    dom.insert(model, InstanceBuilder::new("Part").with_referent(shared));
    let other = WeakDom::new(
        InstanceBuilder::new("Folder")
            .with_child(InstanceBuilder::new("Part").with_referent(shared)),
    );
    let other_ref = other.root_ref();
    let (_, mut raw) = dom.into_raw();
    raw.insert(other_ref, other.into_raw().1.remove(&other_ref).unwrap());
    let mut dom = WeakDom::from_raw(model, raw);
    let outer = dom.insert(Referent::none(), InstanceBuilder::new("Outer"));
    dom.transfer_within(other_ref, outer);
    let (_, raw) = dom.into_raw();
    let mut dom = WeakDom::from_raw(outer, raw);
    let moved = dom.insert(outer, InstanceBuilder::new("Folder"));
    assert!(is_intact(&dom, id(moved)));
    assert!(is_intact(&dom, id(outer)));

    dom.transfer_within(shared, outer);

    assert!(!is_intact(&dom, id(outer)));
    assert!(try_snapshot_from_dom(dom, id(outer), &HashMap::new()).is_none());
}

#[test]
fn references_of_a_file_link_up_once_it_is_in_the_tree() {
    let (mut dom, model, root, beam) = model();
    dom.get_by_ref_mut(model)
        .unwrap()
        .properties
        .insert(ustr("PrimaryPart"), Variant::Ref(root));
    dom.get_by_ref_mut(beam)
        .unwrap()
        .properties
        .insert(ustr("Attachment0"), Variant::Ref(root));

    let snapshot = try_snapshot_from_dom(dom, id(model), &HashMap::new()).unwrap();
    let mut tree = Tree::new(
        Snapshot::new()
            .with_name("game")
            .with_children(vec![snapshot]),
    );
    assert_eq!(refs::resolve_all(&mut tree).len(), 2);

    let model = tree.get_instance(tree.root_ref()).unwrap().children()[0];
    let root = tree.get_instance(model).unwrap().children()[0];
    let effects = tree.get_instance(model).unwrap().children()[1];
    let beam = tree.get_instance(effects).unwrap().children()[0];
    let target = Variant::Ref(Referent::from_str(&format!("{:032x}", root.value)).unwrap());
    assert_eq!(
        tree.get_instance(model)
            .unwrap()
            .properties
            .get(&ustr("PrimaryPart")),
        Some(&target)
    );
    assert_eq!(
        tree.get_instance(beam)
            .unwrap()
            .properties
            .get(&ustr("Attachment0")),
        Some(&target)
    );
}
