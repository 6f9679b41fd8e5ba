use argon_refs::property::{Properties, RefPaths, Value};
use argon_refs::ref_path::RefPath;
use argon_refs::referent::Ref;
use argon_refs::refs;
use argon_refs::snapshot::{Meta, Snapshot};
use argon_refs::tree::Tree;
use rbx_dom_weak::types::{Ref as Referent, Variant};
use rbx_dom_weak::ustr;
use std::str::FromStr;

fn instance(name: &str, children: Vec<Snapshot>) -> Snapshot {
    Snapshot::new()
        .with_name(name)
        .with_class("Folder")
        .with_children(children)
}

/// Builds a tree that holds `Workspace.Model` with a `Root` and an
/// `Effects.Beam` inside of it, next to a `Lighting` service.
fn tree() -> Tree {
    Tree::new(
        Snapshot::new()
            .with_name("game")
            .with_class("DataModel")
            .with_children(vec![
                instance(
                    "Workspace",
                    vec![instance(
                        "Model",
                        vec![
                            instance("Root", vec![]),
                            instance("Effects", vec![instance("Beam", vec![])]),
                        ],
                    )],
                ),
                instance("Lighting", vec![]),
            ]),
    )
}

fn find(tree: &Tree, path: &[&str]) -> Ref {
    let mut current = tree.root_ref();

    for name in path {
        current = *tree
            .get_instance(current)
            .unwrap()
            .children()
            .iter()
            .find(|child| tree.get_instance(**child).unwrap().name == *name)
            .unwrap();
    }

    current
}

fn referent(id: Ref) -> Referent {
    Referent::from_str(&format!("{:032x}", id.value)).unwrap()
}

fn new_ref() -> Ref {
    Ref {
        value: u128::from_str_radix(&Referent::new().to_string(), 16).unwrap(),
    }
}

fn claim(tree: &mut Tree, id: Ref, name: &str) {
    let mut meta = tree.get_meta(id).unwrap().clone();
    meta.set_id(Some(name.into()));
    tree.update_meta(id, meta);
}

fn keep_path(tree: &mut Tree, id: Ref, property: &str, path: &str) {
    let mut meta = tree.get_meta(id).unwrap().clone();
    meta.refs
        .insert(ustr(property), RefPath::parse(path).unwrap());
    tree.update_meta(id, meta);
}

#[test]
fn absolute_path_round_trips() {
    let path = RefPath::parse("Workspace.Model.Root").unwrap();

    assert_eq!(
        path,
        RefPath::Absolute(vec!["Workspace".into(), "Model".into(), "Root".into()])
    );
    assert_eq!(path.to_string(), "Workspace.Model.Root");
}

#[test]
fn relative_path_round_trips() {
    let path = RefPath::parse("^^Effects.Beam").unwrap();

    assert_eq!(
        path,
        RefPath::Relative {
            up: 2,
            down: vec!["Effects".into(), "Beam".into()],
        }
    );
    assert_eq!(path.to_string(), "^^Effects.Beam");
}

#[test]
fn path_to_an_ancestor_round_trips() {
    let path = RefPath::parse("^^").unwrap();

    assert_eq!(
        path,
        RefPath::Relative {
            up: 2,
            down: Vec::new()
        }
    );
    assert_eq!(path.to_string(), "^^");
}

#[test]
fn id_round_trips() {
    let path = RefPath::parse("#hull").unwrap();

    assert_eq!(path, RefPath::Id("hull".into()));
    assert_eq!(path.to_string(), "#hull");
}

#[test]
fn empty_path_points_at_nothing() {
    assert_eq!(RefPath::parse(""), None);
    assert_eq!(RefPath::parse("#"), None);
}

#[test]
fn path_to_a_child_round_trips() {
    let path = RefPath::parse(".Root").unwrap();

    assert_eq!(
        path,
        RefPath::Relative {
            up: 0,
            down: vec!["Root".into()],
        }
    );
    assert_eq!(path.to_string(), ".Root");
}

#[test]
fn path_to_the_holder_itself_round_trips() {
    let path = RefPath::parse(".").unwrap();

    assert_eq!(
        path,
        RefPath::Relative {
            up: 0,
            down: Vec::new(),
        }
    );
    assert_eq!(path.to_string(), ".");
}

#[test]
fn every_separator_ends_a_name() {
    assert_eq!(
        RefPath::parse("a..b"),
        Some(RefPath::Absolute(vec!["a".into(), "".into(), "b".into()]))
    );
    assert_eq!(
        RefPath::parse("^."),
        Some(RefPath::Relative {
            up: 1,
            down: vec!["".into(), "".into()],
        })
    );
    assert_eq!(
        RefPath::parse("Größe.^x#"),
        Some(RefPath::Absolute(vec!["Größe".into(), "^x#".into()]))
    );
}

#[test]
fn name_with_a_separator_does_not_read_back() {
    let path = RefPath::Absolute(vec!["v1.0".into()]);

    assert_eq!(path.to_string(), "v1.0");
    assert_eq!(
        RefPath::parse("v1.0"),
        Some(RefPath::Absolute(vec!["v1".into(), "0".into()]))
    );
}

#[test]
fn id_resolves_wherever_the_instance_is() {
    let mut tree = tree();
    let root = find(&tree, &["Workspace", "Model", "Root"]);

    let mut meta = tree.get_meta(root).unwrap().clone();
    meta.set_id(Some("hull".into()));
    tree.update_meta(root, meta);

    let lighting = find(&tree, &["Lighting"]);
    let path = RefPath::parse("#hull").unwrap();

    assert_eq!(path.resolve(&tree, lighting), Some(root));
}

#[test]
fn an_id_is_preferred_over_a_path() {
    let mut tree = tree();

    let beam = find(&tree, &["Workspace", "Model", "Effects", "Beam"]);
    let root = find(&tree, &["Workspace", "Model", "Root"]);

    assert_eq!(
        RefPath::between(&tree, beam, root).unwrap().to_string(),
        "^^Root"
    );

    let mut meta = tree.get_meta(root).unwrap().clone();
    meta.set_id(Some("hull".into()));
    tree.update_meta(root, meta);

    assert_eq!(
        RefPath::between(&tree, beam, root).unwrap().to_string(),
        "#hull"
    );
}

#[test]
fn an_id_that_nothing_claims_points_at_nothing() {
    let tree = tree();
    let beam = find(&tree, &["Workspace", "Model", "Effects", "Beam"]);

    assert_eq!(RefPath::parse("#hull").unwrap().resolve(&tree, beam), None);
}

#[test]
fn an_id_that_two_claim_points_at_the_first_one_added() {
    let mut tree = tree();
    let root = find(&tree, &["Workspace", "Model", "Root"]);
    let beam = find(&tree, &["Workspace", "Model", "Effects", "Beam"]);

    claim(&mut tree, beam, "hull");
    claim(&mut tree, root, "hull");

    assert_eq!(tree.get_by_ref_id(&"hull".to_string()), Some(root));
}

#[test]
fn absolute_path_resolves_from_the_root() {
    let tree = tree();

    let beam = find(&tree, &["Workspace", "Model", "Effects", "Beam"]);
    let root = find(&tree, &["Workspace", "Model", "Root"]);

    let path = RefPath::parse("Workspace.Model.Root").unwrap();

    assert_eq!(path.resolve(&tree, beam), Some(root));
}

#[test]
fn relative_path_resolves_from_the_instance() {
    let tree = tree();

    let beam = find(&tree, &["Workspace", "Model", "Effects", "Beam"]);
    let root = find(&tree, &["Workspace", "Model", "Root"]);

    let path = RefPath::parse("^^Root").unwrap();

    assert_eq!(path.resolve(&tree, beam), Some(root));
}

#[test]
fn path_that_walks_past_the_root_points_at_nothing() {
    let tree = tree();
    let lighting = find(&tree, &["Lighting"]);

    let path = RefPath::parse("^^^^^Workspace").unwrap();

    assert_eq!(path.resolve(&tree, lighting), None);
}

#[test]
fn path_that_walks_onto_the_root_itself_points_at_nothing() {
    let tree = tree();
    let lighting = find(&tree, &["Lighting"]);

    let path = RefPath::parse("^^").unwrap();

    assert_eq!(path.resolve(&tree, lighting), None);
}

#[test]
fn path_between_two_instances_stays_relative() {
    let tree = tree();

    let beam = find(&tree, &["Workspace", "Model", "Effects", "Beam"]);
    let root = find(&tree, &["Workspace", "Model", "Root"]);

    let path = RefPath::between(&tree, beam, root).unwrap();

    assert_eq!(path.to_string(), "^^Root");
    assert_eq!(path.resolve(&tree, beam), Some(root));
}

#[test]
fn path_between_distant_instances_walks_up_to_the_root() {
    let tree = tree();

    let beam = find(&tree, &["Workspace", "Model", "Effects", "Beam"]);
    let lighting = find(&tree, &["Lighting"]);

    let path = RefPath::between(&tree, beam, lighting).unwrap();

    assert_eq!(path.to_string(), "^^^^Lighting");
    assert_eq!(path.resolve(&tree, beam), Some(lighting));
}

#[test]
fn path_between_an_instance_and_itself_resolves_back_to_it() {
    let tree = tree();
    let root = find(&tree, &["Workspace", "Model", "Root"]);

    let path = RefPath::between(&tree, root, root).unwrap();

    assert_eq!(path.resolve(&tree, root), Some(root));
}

#[test]
fn path_from_the_root_to_itself_does_not_lead_back() {
    let tree = tree();
    let game = tree.root_ref();

    let path = RefPath::between(&tree, game, game).unwrap();

    assert_eq!(path.to_string(), "^game");
    assert_eq!(path.resolve(&tree, game), None);
}

#[test]
fn path_to_an_ancestor_resolves_to_it() {
    let tree = tree();

    let beam = find(&tree, &["Workspace", "Model", "Effects", "Beam"]);
    let model = find(&tree, &["Workspace", "Model"]);

    let path = RefPath::between(&tree, beam, model).unwrap();

    assert_eq!(path.to_string(), "^^");
    assert_eq!(path.resolve(&tree, beam), Some(model));
}

#[test]
fn path_from_outside_the_tree_is_absolute() {
    let tree = tree();
    let root = find(&tree, &["Workspace", "Model", "Root"]);
    let outside = new_ref();

    let path = RefPath::between(&tree, outside, root).unwrap();

    assert_eq!(path.to_string(), "Workspace.Model.Root");
    assert_eq!(path.resolve(&tree, outside), Some(root));
    assert_eq!(RefPath::between(&tree, root, outside), None);
    assert_eq!(RefPath::between(&tree, root, Ref::none()), None);
}

#[test]
fn root_has_no_absolute_path() {
    let tree = tree();

    assert_eq!(RefPath::absolute(&tree, tree.root_ref()), None);
    assert_eq!(RefPath::absolute(&tree, Ref::none()), None);
}

#[test]
fn shared_name_cannot_be_described_or_followed() {
    let tree = Tree::new(instance(
        "game",
        vec![
            instance("Part", vec![instance("Child", vec![])]),
            instance("Part", vec![]),
            instance("Other", vec![]),
        ],
    ));
    let game = tree.root_ref();
    let first = tree.get_instance(game).unwrap().children()[0];
    let child = tree.get_instance(first).unwrap().children()[0];
    let other = find(&tree, &["Other"]);

    assert_eq!(RefPath::between(&tree, other, first), None);
    assert_eq!(RefPath::between(&tree, first, first), None);
    assert_eq!(RefPath::between(&tree, other, child), None);
    assert_eq!(RefPath::absolute(&tree, child), None);
    assert_eq!(
        RefPath::between(&tree, child, first).unwrap().to_string(),
        "^"
    );
    assert_eq!(RefPath::parse("Part").unwrap().resolve(&tree, other), None);
}

#[test]
fn shared_name_can_be_reached_by_id() {
    let mut tree = Tree::new(instance(
        "game",
        vec![instance("Part", vec![]), instance("Part", vec![])],
    ));
    let game = tree.root_ref();
    let second = tree.get_instance(game).unwrap().children()[1];

    claim(&mut tree, second, "second");

    let path = RefPath::between(&tree, game, second).unwrap();

    assert_eq!(path.to_string(), "#second");
    assert_eq!(path.resolve(&tree, game), Some(second));
}

#[test]
fn path_survives_a_move_of_what_is_above() {
    let model = || {
        instance(
            "Model",
            vec![
                instance("Root", vec![]),
                instance("Effects", vec![instance("Beam", vec![])]),
            ],
        )
    };
    let here = Tree::new(instance("game", vec![instance("Workspace", vec![model()])]));
    let there = Tree::new(instance(
        "game",
        vec![instance("Storage", vec![instance("Ships", vec![model()])])],
    ));
    let path = RefPath::between(
        &here,
        find(&here, &["Workspace", "Model", "Effects", "Beam"]),
        find(&here, &["Workspace", "Model", "Root"]),
    )
    .unwrap();

    assert_eq!(
        path.resolve(
            &there,
            find(&there, &["Storage", "Ships", "Model", "Effects", "Beam"])
        ),
        Some(find(&there, &["Storage", "Ships", "Model", "Root"]))
    );
}

#[test]
fn resolving_points_the_instance_at_its_target() {
    let mut tree = tree();

    let model = find(&tree, &["Workspace", "Model"]);
    let root = find(&tree, &["Workspace", "Model", "Root"]);

    let mut meta = tree.get_meta(model).unwrap().clone();
    meta.refs
        .insert(ustr("PrimaryPart"), RefPath::parse(".Root").unwrap());
    tree.update_meta(model, meta);

    let updates = refs::resolve_all(&mut tree);

    assert_eq!(updates.len(), 1);
    assert_eq!(updates[0].id, model);
    assert_eq!(
        tree.get_instance(model)
            .unwrap()
            .properties
            .get(&ustr("PrimaryPart")),
        Some(&Variant::Ref(referent(root)))
    );
}

#[test]
fn resolving_twice_reports_no_further_changes() {
    let mut tree = tree();
    let model = find(&tree, &["Workspace", "Model"]);

    let mut meta = tree.get_meta(model).unwrap().clone();
    meta.refs
        .insert(ustr("PrimaryPart"), RefPath::parse(".Root").unwrap());
    tree.update_meta(model, meta);

    assert_eq!(refs::resolve_all(&mut tree).len(), 1);
    assert_eq!(refs::resolve_all(&mut tree).len(), 0);
}

#[test]
fn unresolvable_reference_is_left_alone() {
    let mut tree = tree();
    let model = find(&tree, &["Workspace", "Model"]);

    let mut meta = tree.get_meta(model).unwrap().clone();
    meta.refs
        .insert(ustr("PrimaryPart"), RefPath::parse(".Missing").unwrap());
    tree.update_meta(model, meta);

    assert_eq!(refs::resolve_all(&mut tree).len(), 0);
    assert_eq!(
        tree.get_instance(model)
            .unwrap()
            .properties
            .get(&ustr("PrimaryPart")),
        None
    );
}

#[test]
fn instance_without_references_is_never_visited() {
    let mut tree = tree();

    assert!(tree.ids_with_refs().is_empty());
    assert_eq!(refs::resolve_all(&mut tree).len(), 0);
}

#[test]
fn update_tells_of_all_properties() {
    let mut part = instance("Part", vec![]);
    part.add_property("Title", Value::Text("Hull".into()));
    part.add_property("Missing", Value::Text("kept".into()));
    let mut tree = Tree::new(instance("game", vec![part]));
    let id = find(&tree, &["Part"]);

    keep_path(&mut tree, id, "Holder", "^");
    keep_path(&mut tree, id, "Missing", ".Missing");

    assert_eq!(tree.ids_with_refs(), vec![id]);

    let updates = refs::resolve_all(&mut tree);
    let mut expected = Properties::default();
    expected.insert(ustr("Title"), Variant::String("Hull".into()));
    expected.insert(ustr("Missing"), Variant::String("kept".into()));
    expected.insert(ustr("Holder"), Variant::Ref(referent(tree.root_ref())));

    assert_eq!(updates.len(), 1);
    assert_eq!(updates[0].properties, Some(expected.clone()));
    assert_eq!(tree.get_instance(id).unwrap().properties, expected);
}

#[test]
fn updates_come_in_the_order_of_the_instances() {
    let mut tree = tree();
    let beam = find(&tree, &["Workspace", "Model", "Effects", "Beam"]);
    let lighting = find(&tree, &["Lighting"]);
    let root = find(&tree, &["Workspace", "Model", "Root"]);

    keep_path(&mut tree, lighting, "Target", "Workspace.Model");
    keep_path(&mut tree, beam, "Target", "^^Root");
    keep_path(&mut tree, root, "Target", "^");

    let ids: Vec<Ref> = refs::resolve_all(&mut tree)
        .iter()
        .map(|update| update.id)
        .collect();

    assert_eq!(ids, vec![root, beam, lighting]);
}

#[test]
fn describing_properties_produces_a_resolvable_path() {
    let tree = tree();

    let model = find(&tree, &["Workspace", "Model"]);
    let root = find(&tree, &["Workspace", "Model", "Root"]);

    let mut properties = Properties::default();
    properties.insert(ustr("PrimaryPart"), Variant::Ref(referent(root)));

    let paths = refs::from_properties(&properties, &tree, model);

    assert_eq!(
        paths
            .get(&ustr("PrimaryPart"))
            .map(|path| path.to_string()),
        Some(".Root".into())
    );

    let properties = refs::to_paths(properties, &paths);

    assert_eq!(
        properties.get(&ustr("PrimaryPart")),
        Some(&Variant::String(".Root".into()))
    );
}

#[test]
fn reference_with_no_known_path_is_dropped() {
    let mut properties = Properties::default();
    properties.insert(ustr("PrimaryPart"), Variant::Ref(Referent::new()));

    let properties = refs::to_paths(properties, &RefPaths::default());

    assert!(properties.is_empty());
}

#[test]
fn plain_properties_are_written_as_they_are() {
    let mut properties = Properties::default();
    properties.insert(ustr("Anchored"), Variant::Bool(true));
    properties.insert(ustr("Title"), Variant::String("Hull".into()));
    let mut paths = RefPaths::default();
    paths.insert(ustr("Title"), RefPath::parse(".Root").unwrap());

    let written = refs::to_paths(properties.clone(), &paths);

    assert_eq!(written, properties);
}

#[test]
fn reference_to_nothing_has_no_path() {
    let tree = tree();
    let model = find(&tree, &["Workspace", "Model"]);
    let mut properties = Properties::default();
    properties.insert(ustr("PrimaryPart"), Variant::Ref(Referent::none()));

    assert!(refs::from_properties(&properties, &tree, model).is_empty());
}

#[test]
fn written_reference_reads_back_into_the_same_link() {
    let mut tree = tree();
    let beam = find(&tree, &["Workspace", "Model", "Effects", "Beam"]);
    let root = find(&tree, &["Workspace", "Model", "Root"]);
    let mut properties = Properties::default();
    properties.insert(ustr("Attachment0"), Variant::Ref(referent(root)));

    let paths = refs::from_properties(&properties, &tree, beam);
    let written = refs::to_paths(properties, &paths);
    let text = match written.get(&ustr("Attachment0")) {
        Some(Variant::String(text)) => text.clone(),
        other => panic!("expected a path, got {:?}", other),
    };
    keep_path(&mut tree, beam, "Attachment0", &text);
    refs::resolve_all(&mut tree);

    assert_eq!(
        tree.get_instance(beam)
            .unwrap()
            .properties
            .get(&ustr("Attachment0")),
        Some(&Variant::Ref(referent(root)))
    );
}

#[test]
fn references_added_by_the_client_are_described_by_the_snapshot() {
    let tree = tree();

    let model_id = new_ref();
    let root_id = new_ref();
    let beam_id = new_ref();

    let mut root = instance("Root", vec![]).with_id(root_id);
    let mut beam = instance("Beam", vec![]).with_id(beam_id);

    beam.add_property("Attachment0", Value::Reference(root_id));
    root.add_property("Attachment0", Value::Reference(find(&tree, &["Lighting"])));

    let mut snapshot = instance("Model", vec![root, beam]).with_id(model_id);
    snapshot.add_property("PrimaryPart", Value::Reference(root_id));

    refs::from_snapshot(&mut snapshot, &tree);

    assert_eq!(
        snapshot
            .meta
            .refs
            .get(&ustr("PrimaryPart"))
            .map(|path| path.to_string()),
        Some(".Root".into())
    );
    assert_eq!(
        snapshot.children[1]
            .meta
            .refs
            .get(&ustr("Attachment0"))
            .map(|path| path.to_string()),
        Some("^Root".into())
    );
    assert_eq!(
        snapshot.children[0]
            .meta
            .refs
            .get(&ustr("Attachment0"))
            .map(|path| path.to_string()),
        Some("Lighting".into())
    );
}

#[test]
fn snapshot_keeps_the_paths_it_came_with() {
    let mut tree = tree();
    let lighting = find(&tree, &["Lighting"]);
    claim(&mut tree, lighting, "sky");
    let mut meta = Meta::new();
    let mut refs_before = RefPaths::default();
    refs_before.insert(ustr("Other"), RefPath::parse(".Elsewhere").unwrap());
    refs_before.insert(ustr("Sky"), RefPath::parse(".Elsewhere").unwrap());
    meta.set_refs(refs_before);
    let mut snapshot = instance("Part", vec![]).with_id(new_ref()).with_meta(meta);
    snapshot.add_property("Sky", Value::Reference(lighting));
    snapshot.add_property("Gone", Value::Reference(new_ref()));

    refs::from_snapshot(&mut snapshot, &tree);

    assert_eq!(snapshot.meta.refs.len(), 2);
    assert_eq!(
        snapshot.meta.refs.get(&ustr("Other")),
        RefPath::parse(".Elsewhere").as_ref()
    );
    assert_eq!(
        snapshot.meta.refs.get(&ustr("Sky")),
        RefPath::parse("#sky").as_ref()
    );
}

#[test]
fn described_snapshot_links_up_once_it_is_in_the_tree() {
    let mut tree = tree();
    let workspace = find(&tree, &["Workspace"]);
    let root_id = new_ref();
    let beam_id = new_ref();
    let root = instance("Root", vec![]).with_id(root_id);
    let mut beam = instance("Beam", vec![]).with_id(beam_id);
    beam.add_property("Attachment0", Value::Reference(root_id));
    let mut ship = instance("Ship", vec![root, beam]).with_id(new_ref());
    ship.add_property("PrimaryPart", Value::Reference(root_id));

    refs::from_snapshot(&mut ship, &tree);
    let ship_id = ship.id;

    assert_eq!(tree.insert_instance(ship, workspace), Some(ship_id));
    assert_eq!(find(&tree, &["Workspace", "Ship", "Root"]), root_id);
    assert_eq!(
        tree.get_meta(beam_id)
            .unwrap()
            .refs
            .get(&ustr("Attachment0"))
            .unwrap()
            .resolve(&tree, beam_id),
        Some(root_id)
    );
    assert_eq!(
        tree.get_meta(ship_id)
            .unwrap()
            .refs
            .get(&ustr("PrimaryPart"))
            .unwrap()
            .resolve(&tree, ship_id),
        Some(root_id)
    );
    assert!(refs::resolve_all(&mut tree).is_empty());
}

#[test]
fn instance_is_not_inserted_below_nothing() {
    let mut tree = tree();

    assert_eq!(
        tree.insert_instance(instance("Part", vec![]), new_ref()),
        None
    );
}

#[test]
fn instances_without_an_id_are_given_one() {
    let mut tree = tree();
    let lighting = find(&tree, &["Lighting"]);
    let taken = instance("Sky", vec![]).with_id(lighting);

    let sky = tree.insert_instance(taken, lighting).unwrap();

    assert!(!tree.root_ref().is_none());
    assert!(!sky.is_none());
    assert!(sky != lighting);
    assert_eq!(find(&tree, &["Lighting", "Sky"]), sky);
    assert_eq!(tree.get_instance(sky).unwrap().parent(), lighting);
}

#[test]
fn id_survives_a_move_and_a_new_name() {
    let mut here = tree();
    let beam = find(&here, &["Workspace", "Model", "Effects", "Beam"]);
    let root = find(&here, &["Workspace", "Model", "Root"]);
    claim(&mut here, root, "hull");
    let path = RefPath::between(&here, beam, root).unwrap();

    let mut meta = Meta::new();
    meta.set_id(Some("hull".into()));
    let there = Tree::new(instance(
        "game",
        vec![instance(
            "Storage",
            vec![instance("Renamed", vec![]).with_id(root).with_meta(meta)],
        )],
    ));

    assert_eq!(path.resolve(&there, there.root_ref()), Some(root));
}

#[test]
fn absolute_path_survives_an_addition_elsewhere() {
    let mut tree = tree();
    let root = find(&tree, &["Workspace", "Model", "Root"]);
    let lighting = find(&tree, &["Lighting"]);
    let path = RefPath::absolute(&tree, root).unwrap();

    let sky = tree
        .insert_instance(instance("Root", vec![]), lighting)
        .unwrap();
    assert_eq!(path.resolve(&tree, sky), Some(root));

    // A namesake on the way makes it ambiguous
    let game = tree.root_ref();
    tree.insert_instance(instance("Workspace", vec![]), game);
    assert_eq!(path.resolve(&tree, sky), None);
}

#[test]
fn ambiguous_name_is_told() {
    let tree = Tree::new(instance(
        "game",
        vec![
            instance("Ship", vec![instance("Part", vec![]), instance("Part", vec![])]),
            instance("Other", vec![]),
        ],
    ));
    let other = find(&tree, &["Other"]);
    let told = |path: &str| RefPath::parse(path).unwrap().ambiguous_name(&tree, other);

    assert_eq!(told("Ship.Part"), Some("Part".to_string()));
    assert_eq!(told("Ship.Part.Missing"), Some("Part".to_string()));
    assert_eq!(told("^Ship.Part"), Some("Part".to_string()));
    assert_eq!(told("Ship"), None);
    assert_eq!(told("Ship.Missing.Part"), None);
    assert_eq!(told("^^Ship.Part"), None);
    assert_eq!(told("^^^Ship.Part"), None);
    assert_eq!(told("#Part"), None);
}

#[test]
fn description_survives_a_new_name_above() {
    let mut before = instance("Root", vec![]).with_id(new_ref());
    before.add_property("Title", Value::Text("Hull".into()));
    let root = before.id;
    let beam = new_ref();
    let model = |name: &str, part: Snapshot| {
        instance(
            name,
            vec![part, instance("Beam", vec![]).with_id(beam)],
        )
    };
    let here = Tree::new(instance("game", vec![model("Model", before)]));
    let there = Tree::new(instance(
        "game",
        vec![instance(
            "Folder",
            vec![model("Renamed", instance("Root", vec![]).with_id(root))],
        )],
    ));

    let path = RefPath::between(&here, beam, root);

    assert_eq!(path, RefPath::parse("^Root"));
    assert_eq!(RefPath::between(&there, beam, root), path);
}
