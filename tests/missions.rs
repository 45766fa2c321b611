use laat_missions::addon::Addon;
use laat_missions::composition::Composition;
use laat_missions::error::BuildError;
use laat_missions::mission::{collect_files, create_missions, Mission};
use laat_missions::offset::{add_to_element, offset_classes};
use laat_missions::settings::{
    default_addon_name, default_addons_path, default_assets_path, default_build_path,
    default_mission_name, default_release_path, default_respawn_delay, MissionPlugin, PackConfig,
};
use laat_missions::tree::{ConfigArray, ConfigArrayElement, ConfigClass, ConfigEntry};

fn f(x: f32) -> u32 {
    x.to_bits()
}

fn sum(a: u32, b: u32) -> u32 {
    (f32::from_bits(a) + f32::from_bits(b)).to_bits()
}

fn floats(xs: &[f32]) -> ConfigEntry {
    ConfigEntry::ArrayEntry(ConfigArray {
        is_expansion: false,
        elements: xs.iter().map(|x| ConfigArrayElement::FloatElement(f(*x))).collect(),
    })
}

fn class(parent: &str, entries: Vec<(String, ConfigEntry)>) -> ConfigEntry {
    ConfigEntry::ClassEntry(ConfigClass {
        parent: parent.to_string(),
        is_external: false,
        is_deletion: false,
        entries: Some(entries),
    })
}

fn root(entries: Vec<(String, ConfigEntry)>) -> ConfigClass {
    ConfigClass { parent: String::new(), is_external: false, is_deletion: false, entries: Some(entries) }
}

fn item(x: f32, y: f32, z: f32) -> Vec<(String, ConfigEntry)> {
    vec![(
        "Item0".to_string(),
        class(
            "",
            vec![
                ("dataType".to_string(), ConfigEntry::StringEntry("Object".to_string())),
                (
                    "PositionInfo".to_string(),
                    class("", vec![("position".to_string(), floats(&[x, y, z]))]),
                ),
                ("id".to_string(), ConfigEntry::IntEntry(7)),
            ],
        ),
    )]
}

fn body(center: &[f32], items: Vec<(String, ConfigEntry)>) -> ConfigClass {
    root(vec![
        ("version".to_string(), ConfigEntry::IntEntry(53)),
        ("center".to_string(), floats(center)),
        ("items".to_string(), class("", items)),
    ])
}

fn composition(center: &[f32], offset: (f32, f32, f32), items: Vec<(String, ConfigEntry)>) -> Composition {
    Composition {
        header: root(vec![]),
        composition: body(center, items),
        offset: (f(offset.0), f(offset.1), f(offset.2)),
    }
}

fn position_of(entries: &[(String, ConfigEntry)]) -> Vec<f32> {
    let ConfigEntry::ClassEntry(item) = &entries[0].1 else { panic!("not a class") };
    let inner = item.entries.as_ref().unwrap();
    let ConfigEntry::ClassEntry(info) = &inner[1].1 else { panic!("not a class") };
    let ConfigEntry::ArrayEntry(a) = &info.entries.as_ref().unwrap()[0].1 else { panic!("not an array") };
    a.elements
        .iter()
        .map(|e| match e {
            ConfigArrayElement::FloatElement(b) => f32::from_bits(*b),
            _ => panic!("not a float"),
        })
        .collect()
}

fn mission_tree() -> ConfigClass {
    root(vec![
        ("version".to_string(), ConfigEntry::IntEntry(53)),
        (
            "Mission".to_string(),
            class(
                "",
                vec![
                    ("Intel".to_string(), class("", vec![])),
                    ("Entities".to_string(), class("", vec![])),
                ],
            ),
        ),
    ])
}

fn entities_of(m: &Mission) -> &ConfigClass {
    let es = m.sqm.entries.as_ref().unwrap();
    let ConfigEntry::ClassEntry(mission) = &es[1].1 else { panic!("not a class") };
    let body = mission.entries.as_ref().unwrap();
    let named: Vec<_> = body.iter().filter(|(n, _)| n == "Entities").collect();
    assert_eq!(named.len(), 1);
    let ConfigEntry::ClassEntry(c) = &named[0].1 else { panic!("not a class") };
    c
}

fn mission(map: &str) -> Mission {
    Mission::new("RZ".to_string(), "Zeus".to_string(), map.to_string(), mission_tree())
}

#[test]
fn deterministic_naming() {
    let m = mission("Altis");
    assert_eq!(m.class_name(), "RZ_AltisZeus");
    assert_eq!(m.mission_name(), "RZ_AltisZeus.Altis");
    assert_eq!(m.class_name(), "RZ_AltisZeus");
    assert_eq!(m.file_path(), "missions/RZ_AltisZeus.Altis/mission.sqm");
}

#[test]
fn round_trip_scenario() {
    let c = composition(&[100.0, 200.0, 0.0], (5.0, -5.0, 0.0), item(1.0, 1.0, 1.0));
    assert_eq!(c.get_center().ok(), Some((f(100.0), f(200.0), f(0.0))));
    assert_eq!(c.get_offset(&sum).ok(), Some((f(105.0), f(195.0), f(0.0))));
    let items = c.get_offseted_items(&sum).ok().unwrap();
    assert_eq!(position_of(&items), vec![106.0, 196.0, 1.0]);

    let mut m = mission("Altis");
    assert!(m.merge_composition(&c, &sum).is_ok());
    let entities = entities_of(&m);
    assert_eq!(entities.parent, "Mission");
    assert!(!entities.is_external && !entities.is_deletion);
    assert_eq!(position_of(entities.entries.as_ref().unwrap()), vec![106.0, 196.0, 1.0]);
}

#[test]
fn merge_replaces_entities() {
    let a = composition(&[0.0, 0.0, 0.0], (0.0, 0.0, 0.0), item(1.0, 2.0, 3.0));
    let b = composition(&[10.0, 10.0, 10.0], (0.0, 0.0, 0.0), item(1.0, 2.0, 3.0));
    let mut m = mission("Altis");
    assert!(m.merge_composition(&a, &sum).is_ok());
    assert!(m.merge_composition(&b, &sum).is_ok());
    let entities = entities_of(&m);
    let items = entities.entries.as_ref().unwrap();
    assert_eq!(items.len(), 1);
    assert_eq!(position_of(items), vec![11.0, 12.0, 13.0]);
    let body = match &m.sqm.entries.as_ref().unwrap()[1].1 {
        ConfigEntry::ClassEntry(c) => c.entries.as_ref().unwrap(),
        _ => panic!("not a class"),
    };
    assert_eq!(body[0].0, "Intel");
    assert_eq!(body[1].0, "Entities");
    assert_eq!(body.len(), 2);
}

#[test]
fn merge_without_items_keeps_tree() {
    let c = Composition {
        header: root(vec![]),
        composition: root(vec![("center".to_string(), floats(&[1.0, 2.0, 3.0]))]),
        offset: (0, 0, 0),
    };
    let mut m = mission("Altis");
    match m.merge_composition(&c, &sum) {
        Err(BuildError::MissingField(_)) => {}
        _ => panic!("expected a missing field"),
    }
    let ConfigEntry::ClassEntry(entities) = &match &m.sqm.entries.as_ref().unwrap()[1].1 {
        ConfigEntry::ClassEntry(c) => c.entries.as_ref().unwrap(),
        _ => panic!("not a class"),
    }[1]
    .1 else {
        panic!("not a class")
    };
    assert_eq!(entities.entries.as_ref().unwrap().len(), 0);
}

#[test]
fn center_must_be_three_floats() {
    let c = composition(&[1.0, 2.0], (0.0, 0.0, 0.0), item(0.0, 0.0, 0.0));
    assert!(matches!(c.get_center(), Err(BuildError::MissingField(_))));
    assert!(matches!(c.get_offseted_items(&sum), Err(BuildError::MissingField(_))));
    let c = Composition { header: root(vec![]), composition: root(vec![]), offset: (0, 0, 0) };
    assert!(matches!(c.get_center(), Err(BuildError::MissingField(_))));
}

#[test]
fn center_last_binding_wins() {
    let c = Composition {
        header: root(vec![]),
        composition: root(vec![
            ("center".to_string(), floats(&[1.0, 2.0, 3.0])),
            ("center".to_string(), floats(&[4.0, 5.0, 6.0])),
        ]),
        offset: (0, 0, 0),
    };
    assert_eq!(c.get_center().ok(), Some((f(4.0), f(5.0), f(6.0))));
}

#[test]
fn partial_failure_containment() {
    let maps = vec!["Altis".to_string(), "Stratis".to_string(), "Tanoa".to_string()];
    let scaffolds = vec![
        Ok(mission_tree()),
        Err(BuildError::Parse("malformed scaffold".to_string())),
        Ok(mission_tree()),
    ];
    let missions = create_missions(&"RZ".to_string(), &"Zeus".to_string(), &maps, scaffolds);
    assert_eq!(missions.len(), 2);
    assert_eq!(missions[0].map_name, "Altis");
    assert_eq!(missions[1].map_name, "Tanoa");
    assert_eq!(missions[1].class_name(), "RZ_TanoaZeus");
}

#[test]
fn offset_inverse_and_locality() {
    let e = item(1.5, -2.0, 3.25);
    let shifted = offset_classes(e, (f(2.0), f(4.0), f(-1.0)), &sum);
    assert_eq!(position_of(&shifted), vec![3.5, 2.0, 2.25]);
    assert_eq!(shifted[0].0, "Item0");
    let ConfigEntry::ClassEntry(c) = &shifted[0].1 else { panic!("not a class") };
    let names: Vec<_> = c.entries.as_ref().unwrap().iter().map(|(n, _)| n.clone()).collect();
    assert_eq!(names, vec!["dataType", "PositionInfo", "id"]);
    let back = offset_classes(shifted, (f(-2.0), f(-4.0), f(1.0)), &sum);
    assert_eq!(position_of(&back), vec![1.5, -2.0, 3.25]);
}

#[test]
fn position_info_without_position_is_kept() {
    let e = vec![(
        "PositionInfo".to_string(),
        class("Base", vec![("angles".to_string(), floats(&[1.0, 1.0, 1.0]))]),
    )];
    let r = offset_classes(e, (f(1.0), f(1.0), f(1.0)), &sum);
    let ConfigEntry::ClassEntry(c) = &r[0].1 else { panic!("not a class") };
    assert_eq!(c.parent, "Base");
    let ConfigEntry::ArrayEntry(a) = &c.entries.as_ref().unwrap()[0].1 else { panic!("not an array") };
    assert_eq!(a.elements.len(), 3);
    assert!(matches!(a.elements[0], ConfigArrayElement::FloatElement(b) if b == f(1.0)));
}

#[test]
fn short_and_long_positions() {
    let info = |xs: &[f32]| {
        vec![("PositionInfo".to_string(), class("", vec![("position".to_string(), floats(xs))]))]
    };
    let r = offset_classes(info(&[1.0, 2.0]), (f(1.0), f(1.0), f(1.0)), &sum);
    let ConfigEntry::ClassEntry(c) = &r[0].1 else { panic!("not a class") };
    let ConfigEntry::ArrayEntry(a) = &c.entries.as_ref().unwrap()[0].1 else { panic!("not an array") };
    assert_eq!(a.elements.len(), 2);
    assert!(matches!(a.elements[1], ConfigArrayElement::FloatElement(b) if b == f(3.0)));
    let r = offset_classes(info(&[1.0, 2.0, 3.0, 4.0]), (f(1.0), f(1.0), f(1.0)), &sum);
    let ConfigEntry::ClassEntry(c) = &r[0].1 else { panic!("not a class") };
    let ConfigEntry::ArrayEntry(a) = &c.entries.as_ref().unwrap()[0].1 else { panic!("not an array") };
    assert!(matches!(a.elements[2], ConfigArrayElement::FloatElement(b) if b == f(4.0)));
    assert!(matches!(a.elements[3], ConfigArrayElement::FloatElement(b) if b == f(4.0)));
}

#[test]
fn non_float_elements_pass_through() {
    let s = add_to_element(ConfigArrayElement::StringElement("x".to_string()), f(1.0), &sum);
    assert!(matches!(s, ConfigArrayElement::StringElement(ref v) if v == "x"));
    let i = add_to_element(ConfigArrayElement::IntElement(4), f(1.0), &sum);
    assert!(matches!(i, ConfigArrayElement::IntElement(4)));
    let x = add_to_element(ConfigArrayElement::FloatElement(f(0.5)), f(1.0), &sum);
    assert!(matches!(x, ConfigArrayElement::FloatElement(b) if b == f(1.5)));
}

#[test]
fn addon_manifest_entries() {
    let missions = vec![mission("Altis"), mission("Tanoa")];
    let addon = Addon::from_parts("RZ".to_string(), "Missions".to_string(), &missions);
    assert_eq!(addon.missions.len(), 2);
    assert_eq!(addon.missions[0].class_name, "RZ_AltisZeus");
    assert_eq!(addon.missions[0].briefing_name, "[RZ] RZ_AltisZeus");
    assert_eq!(addon.missions[1].directory, r"RZ\Missions\missions\RZ_TanoaZeus.Tanoa");
}

#[test]
fn settings_defaults() {
    assert_eq!(default_build_path(), "build");
    assert_eq!(default_assets_path(), "assets");
    assert_eq!(default_addons_path(), "addons");
    assert_eq!(default_release_path(), "release");
    assert_eq!(default_addon_name(), "Missions");
    assert_eq!(default_mission_name(), "ZeusMission");
    assert_eq!(default_respawn_delay(), 2);
    let p = PackConfig::default();
    assert!(p.include_folders.is_empty() && p.excludes.is_empty() && p.header_extensions.is_empty());
    assert_eq!(MissionPlugin.name(), "missions");
}

#[test]
fn error_message() {
    let e = BuildError::MissingField("no center".to_string());
    assert_eq!(e.message(), "no center");
}

#[test]
fn merge_collapses_duplicate_names_last_wins() {
    let tree = root(vec![(
        "Mission".to_string(),
        class(
            "",
            vec![
                ("A".to_string(), ConfigEntry::IntEntry(1)),
                ("Entities".to_string(), class("", vec![])),
                ("B".to_string(), ConfigEntry::IntEntry(2)),
                ("A".to_string(), ConfigEntry::IntEntry(3)),
            ],
        ),
    )]);
    let mut m = Mission::new("RZ".to_string(), "Zeus".to_string(), "Altis".to_string(), tree);
    let c = composition(&[0.0, 0.0, 0.0], (0.0, 0.0, 0.0), item(1.0, 2.0, 3.0));
    assert!(m.merge_composition(&c, &sum).is_ok());
    let ConfigEntry::ClassEntry(mission) = &m.sqm.entries.as_ref().unwrap()[0].1 else { panic!("not a class") };
    let body = mission.entries.as_ref().unwrap();
    let names: Vec<_> = body.iter().map(|(n, _)| n.as_str()).collect();
    assert_eq!(names, vec!["B", "A", "Entities"]);
    assert!(matches!(body[1].1, ConfigEntry::IntEntry(3)));
    let ConfigEntry::ClassEntry(entities) = &body[2].1 else { panic!("not a class") };
    assert_eq!(position_of(entities.entries.as_ref().unwrap()), vec![1.0, 2.0, 3.0]);
}

#[test]
fn collect_files_keeps_written_missions() {
    let missions = vec![mission("Altis"), mission("Stratis"), mission("Tanoa")];
    let texts = vec![
        Ok("a".to_string()),
        Err(BuildError::Serialize("bad".to_string())),
        Ok("c".to_string()),
    ];
    let files = collect_files(missions, texts);
    assert_eq!(files.len(), 2);
    assert_eq!(files[0].0, "missions/RZ_AltisZeus.Altis/mission.sqm");
    assert_eq!(files[0].1, "a");
    assert_eq!(files[1].0, "missions/RZ_TanoaZeus.Tanoa/mission.sqm");
    assert_eq!(files[1].1, "c");
    assert_eq!(files[1].2.map_name, "Tanoa");
}
