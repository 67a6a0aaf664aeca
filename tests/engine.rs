use boot_environments::listener::{on_interfaces_added, on_interfaces_removed, on_properties_changed};
use boot_environments::load::{load_boot_environments, ManagedObject};
use boot_environments::record::{BootEnvironmentObject, DecodeError, Entries, PropValue};
use boot_environments::store::{AppModel, Effect, Message};

const IFACE: &str = "ca.kamacite.BootEnvironment";

fn props(name: &str, desc: &str, active: bool, next_boot: bool, boot_once: bool, created: i64) -> Entries<PropValue> {
    vec![
        ("Name".to_string(), PropValue::Str(name.to_string())),
        ("Description".to_string(), PropValue::Str(desc.to_string())),
        ("Active".to_string(), PropValue::Bool(active)),
        ("NextBoot".to_string(), PropValue::Bool(next_boot)),
        ("BootOnce".to_string(), PropValue::Bool(boot_once)),
        ("Created".to_string(), PropValue::I64(created)),
    ]
}

fn without(p: Entries<PropValue>, key: &str) -> Entries<PropValue> {
    p.into_iter().filter(|(k, _)| k != key).collect()
}

fn record(path: &str, created: i64, next_boot: bool, boot_once: bool) -> BootEnvironmentObject {
    BootEnvironmentObject {
        path: path.to_string(),
        name: format!("be-{}", created),
        description: None,
        active: false,
        next_boot,
        boot_once,
        created,
    }
}

fn object(path: &str, p: Entries<PropValue>) -> ManagedObject {
    ManagedObject {
        path: path.to_string(),
        interfaces: vec![
            ("org.freedesktop.DBus.Properties".to_string(), vec![]),
            (IFACE.to_string(), p),
        ],
    }
}

fn connected_model(list: Vec<BootEnvironmentObject>) -> AppModel {
    let mut m = AppModel::new();
    assert_eq!(m.update(Message::Connected), Effect::Load);
    assert_eq!(m.update(Message::BootEnvironmentsLoaded(list)), Effect::Nothing);
    m
}

fn created_order(m: &AppModel) -> Vec<i64> {
    m.environments().iter().map(|e| e.created).collect()
}

#[test]
fn decode_well_formed_dictionary() {
    let p = props("default", "Fresh install", true, false, true, 1700000000);
    let r = BootEnvironmentObject::from_properties("/ca/kamacite/BootEnvironments/0".to_string(), &p).unwrap();
    assert_eq!(r.path, "/ca/kamacite/BootEnvironments/0");
    assert_eq!(r.name, "default");
    assert_eq!(r.description, Some("Fresh install".to_string()));
    assert!(r.active);
    assert!(!r.next_boot);
    assert!(r.boot_once);
    assert_eq!(r.created, 1700000000);
}

#[test]
fn decode_is_deterministic() {
    let p = props("a", "b", false, true, false, -5);
    let r1 = BootEnvironmentObject::from_properties("/x".to_string(), &p);
    let r2 = BootEnvironmentObject::from_properties("/x".to_string(), &p);
    assert_eq!(r1, r2);
    assert_eq!(r1.unwrap().created, -5);
}

#[test]
fn decode_missing_any_field_fails() {
    for key in ["Name", "Description", "Active", "NextBoot", "BootOnce", "Created"] {
        let p = without(props("a", "b", false, true, false, 1), key);
        assert_eq!(
            BootEnvironmentObject::from_properties("/x".to_string(), &p),
            Err(DecodeError::MissingField),
            "missing {}",
            key
        );
    }
}

#[test]
fn decode_type_mismatch_fails() {
    let mut p = without(props("a", "b", false, true, false, 1), "Created");
    p.push(("Created".to_string(), PropValue::Str("yesterday".to_string())));
    assert_eq!(BootEnvironmentObject::from_properties("/x".to_string(), &p), Err(DecodeError::TypeMismatch));
    let mut q = without(props("a", "b", false, true, false, 1), "Active");
    q.push(("Active".to_string(), PropValue::Other));
    assert_eq!(BootEnvironmentObject::from_properties("/x".to_string(), &q), Err(DecodeError::TypeMismatch));
}

#[test]
fn decode_first_failing_field_decides() {
    // Description is read before Name.
    let mut p = without(without(props("a", "b", false, true, false, 1), "Name"), "Description");
    p.push(("Description".to_string(), PropValue::Bool(true)));
    assert_eq!(BootEnvironmentObject::from_properties("/x".to_string(), &p), Err(DecodeError::TypeMismatch));
}

#[test]
fn decode_empty_description_is_none() {
    let p = props("a", "", false, false, false, 1);
    let r = BootEnvironmentObject::from_properties("/x".to_string(), &p).unwrap();
    assert_eq!(r.description, None);
    let q = props("a", " ", false, false, false, 1);
    let s = BootEnvironmentObject::from_properties("/x".to_string(), &q).unwrap();
    assert_eq!(s.description, Some(" ".to_string()));
}

#[test]
fn decode_first_entry_of_a_key_counts() {
    let mut p = vec![("Name".to_string(), PropValue::Str("first".to_string()))];
    p.extend(props("second", "d", false, false, false, 1));
    let r = BootEnvironmentObject::from_properties("/x".to_string(), &p).unwrap();
    assert_eq!(r.name, "first");
}

#[test]
fn load_sorts_by_creation_time() {
    let objects = vec![
        object("/be/a", props("a", "", false, false, false, 100)),
        object("/be/b", props("b", "", false, false, false, 300)),
        object("/be/c", props("c", "", false, false, false, 200)),
    ];
    let list = load_boot_environments(&objects).unwrap();
    let created: Vec<i64> = list.iter().map(|e| e.created).collect();
    assert_eq!(created, vec![100, 200, 300]);
    let paths: Vec<&str> = list.iter().map(|e| e.path.as_str()).collect();
    assert_eq!(paths, vec!["/be/a", "/be/c", "/be/b"]);
}

#[test]
fn load_orders_equal_timestamps_by_path() {
    let objects = vec![
        object("/be/c", props("c", "", false, false, false, 7)),
        object("/be/d", props("d", "", false, false, false, 3)),
        object("/be/a", props("a", "", false, false, false, 7)),
        object("/be/ab", props("ab", "", false, false, false, 7)),
        object("/be/b", props("b", "", false, false, false, 3)),
    ];
    let list = load_boot_environments(&objects).unwrap();
    let paths: Vec<&str> = list.iter().map(|e| e.path.as_str()).collect();
    assert_eq!(paths, vec!["/be/b", "/be/d", "/be/a", "/be/ab", "/be/c"]);
}

#[test]
fn load_ignores_listing_order() {
    let a = object("/be/a", props("a", "", false, false, false, 7));
    let b = object("/be/b", props("b", "", true, false, false, 7));
    let c = object("/be/c", props("c", "", false, true, false, 1));
    let first = load_boot_environments(&vec![a.clone(), b.clone(), c.clone()]).unwrap();
    let second = load_boot_environments(&vec![b, c, a]).unwrap();
    assert_eq!(first, second);
    let paths: Vec<&str> = first.iter().map(|e| e.path.as_str()).collect();
    assert_eq!(paths, vec!["/be/c", "/be/a", "/be/b"]);
}

#[test]
fn load_twice_gives_same_list() {
    let objects = vec![
        object("/be/a", props("a", "x", true, false, false, 50)),
        object("/be/b", props("b", "", false, true, false, -10)),
    ];
    let first = load_boot_environments(&objects).unwrap();
    let second = load_boot_environments(&objects).unwrap();
    assert_eq!(first, second);
    assert_eq!(first[0].path, "/be/b");
}

#[test]
fn load_fails_whole_list_on_one_bad_object() {
    let objects = vec![
        object("/be/a", props("a", "", false, false, false, 100)),
        object("/be/b", without(props("b", "", false, false, false, 300), "BootOnce")),
        object("/be/c", props("c", "", false, false, false, 200)),
    ];
    assert_eq!(load_boot_environments(&objects), Err(DecodeError::MissingField));
}

#[test]
fn load_reports_first_bad_object() {
    let mut mistyped = without(props("a", "", false, false, false, 100), "Name");
    mistyped.push(("Name".to_string(), PropValue::I64(3)));
    let objects = vec![
        object("/be/a", mistyped),
        object("/be/b", without(props("b", "", false, false, false, 300), "BootOnce")),
    ];
    assert_eq!(load_boot_environments(&objects), Err(DecodeError::TypeMismatch));
}

#[test]
fn load_skips_objects_without_the_interface() {
    let objects = vec![
        ManagedObject {
            path: "/be/other".to_string(),
            interfaces: vec![("org.example.Other".to_string(), props("o", "", false, false, false, 1))],
        },
        object("/be/a", props("a", "", false, false, false, 2)),
    ];
    let list = load_boot_environments(&objects).unwrap();
    assert_eq!(list.len(), 1);
    assert_eq!(list[0].path, "/be/a");
}

#[test]
fn load_of_empty_directory_is_empty() {
    assert_eq!(load_boot_environments(&vec![]), Ok(vec![]));
}

#[test]
fn added_record_goes_to_tail_unsorted() {
    let mut m = connected_model(vec![record("/be/a", 100, false, false), record("/be/b", 200, false, false), record("/be/c", 300, false, false)]);
    assert_eq!(m.update(Message::Added(record("/be/d", 150, false, false))), Effect::Nothing);
    assert_eq!(created_order(&m), vec![100, 200, 300, 150]);
    assert_ne!(created_order(&m), vec![100, 150, 200, 300]);
}

#[test]
fn removed_absent_identity_changes_nothing() {
    let list = vec![record("/be/a", 100, false, false), record("/be/b", 200, false, false)];
    let mut m = connected_model(list.clone());
    assert_eq!(m.update(Message::Removed("/be/zzz".to_string())), Effect::Nothing);
    assert_eq!(m.environments(), &list);
}

#[test]
fn removed_identity_is_dropped() {
    let mut m = connected_model(vec![record("/be/a", 100, false, false), record("/be/b", 200, false, false), record("/be/c", 300, false, false)]);
    m.update(Message::Removed("/be/b".to_string()));
    let paths: Vec<&str> = m.environments().iter().map(|e| e.path.as_str()).collect();
    assert_eq!(paths, vec!["/be/a", "/be/c"]);
}

#[test]
fn reboot_target_prefers_boot_once() {
    let m = connected_model(vec![record("/be/a", 1, true, false), record("/be/b", 2, false, true)]);
    assert_eq!(m.reboot_target_index(), Some(1));
}

#[test]
fn reboot_target_falls_back_to_next_boot() {
    let m = connected_model(vec![record("/be/a", 1, false, false), record("/be/b", 2, true, false), record("/be/c", 3, true, false)]);
    assert_eq!(m.reboot_target_index(), Some(1));
}

#[test]
fn reboot_target_none_without_flags() {
    let m = connected_model(vec![record("/be/a", 1, false, false), record("/be/b", 2, false, false)]);
    assert_eq!(m.reboot_target_index(), None);
    assert_eq!(AppModel::new().reboot_target_index(), None);
}

#[test]
fn active_record_is_first_active() {
    let mut a = record("/be/a", 1, false, false);
    let mut b = record("/be/b", 2, false, false);
    let mut c = record("/be/c", 3, false, false);
    b.active = true;
    c.active = true;
    a.name = "first".to_string();
    let m = connected_model(vec![a, b, c]);
    assert_eq!(m.active_record().map(|e| e.path.as_str()), Some("/be/b"));
    let n = connected_model(vec![record("/be/a", 1, true, true)]);
    assert_eq!(n.active_record(), None);
}

#[test]
fn initial_load_is_stored_in_order() {
    let mut m = AppModel::new();
    assert!(!m.is_connected());
    assert_eq!(m.update(Message::Connected), Effect::Load);
    assert!(m.is_connected());
    let objects = vec![
        object("/be/a", props("a", "", false, false, false, 100)),
        object("/be/b", props("b", "", false, false, false, 300)),
        object("/be/c", props("c", "", false, false, false, 200)),
    ];
    let list = load_boot_environments(&objects).unwrap();
    assert_eq!(m.update(Message::BootEnvironmentsLoaded(list)), Effect::Nothing);
    assert_eq!(created_order(&m), vec![100, 200, 300]);
}

#[test]
fn failed_activation_then_reload() {
    let mut m = connected_model(vec![record("/be/a", 1, true, false), record("/be/b", 2, false, false)]);
    let effect = m.update(Message::ActivateEnvironment("/be/b".to_string()));
    assert_eq!(effect, Effect::Activate { path: "/be/b".to_string(), temporary: true });
    // The command failed on the transport: the store only asks for a reload.
    assert_eq!(m.update(Message::ActivationFinished(false)), Effect::Load);
    assert_eq!(created_order(&m), vec![1, 2]);
    let reloaded = vec![record("/be/a", 1, false, false), record("/be/b", 2, false, true)];
    assert_eq!(m.update(Message::BootEnvironmentsLoaded(reloaded.clone())), Effect::Nothing);
    assert_eq!(m.environments(), &reloaded);
    assert_eq!(m.reboot_target_index(), Some(1));
}

#[test]
fn successful_activation_also_reloads() {
    let mut m = connected_model(vec![]);
    assert_eq!(m.update(Message::ActivationFinished(true)), Effect::Load);
}

#[test]
fn one_property_notification_one_reload() {
    let mut m = connected_model(vec![record("/be/a", 1, true, false)]);
    let changed = vec![
        ("Active".to_string(), PropValue::Bool(true)),
        ("NextBoot".to_string(), PropValue::Bool(false)),
        ("BootOnce".to_string(), PropValue::Bool(true)),
    ];
    let msg = on_properties_changed(&changed);
    assert_eq!(msg, Message::BootEnvironmentsModified);
    let effects = vec![m.update(msg)];
    assert_eq!(effects, vec![Effect::Load]);
    assert_eq!(created_order(&m), vec![1]);
}

#[test]
fn activation_without_session_does_nothing() {
    let mut m = AppModel::new();
    m.update(Message::BootEnvironmentsLoaded(vec![record("/be/a", 1, true, false)]));
    assert_eq!(m.update(Message::ActivateEnvironment("/be/a".to_string())), Effect::Nothing);
    assert!(!m.is_connected());
    assert_eq!(m.environments(), &vec![record("/be/a", 1, true, false)]);
}

#[test]
fn modified_without_session_does_nothing() {
    let mut m = AppModel::new();
    assert_eq!(m.update(Message::BootEnvironmentsModified), Effect::Nothing);
    assert_eq!(m.update(Message::ActivationFinished(false)), Effect::Nothing);
    assert_eq!(m.update(Message::BootSettingsClicked), Effect::Nothing);
}

#[test]
fn reload_replaces_removed_state() {
    let mut m = connected_model(vec![record("/be/a", 1, false, false), record("/be/b", 2, false, false)]);
    m.update(Message::Removed("/be/a".to_string()));
    let reloaded = vec![record("/be/a", 1, false, false), record("/be/b", 2, false, false)];
    m.update(Message::BootEnvironmentsLoaded(reloaded.clone()));
    assert_eq!(m.environments(), &reloaded);
}

#[test]
fn added_notification_decodes_record() {
    let interfaces = vec![(IFACE.to_string(), props("new", "", false, false, false, 42))];
    let msg = on_interfaces_added("/be/new".to_string(), &interfaces).unwrap();
    match msg {
        Message::Added(env) => {
            assert_eq!(env.path, "/be/new");
            assert_eq!(env.name, "new");
            assert_eq!(env.created, 42);
        }
        other => panic!("unexpected {:?}", other),
    }
}

#[test]
fn added_notification_with_bad_record_is_dropped() {
    let interfaces = vec![(IFACE.to_string(), without(props("new", "", false, false, false, 42), "Name"))];
    assert_eq!(on_interfaces_added("/be/new".to_string(), &interfaces), None);
    let other = vec![("org.example.Other".to_string(), props("new", "", false, false, false, 42))];
    assert_eq!(on_interfaces_added("/be/new".to_string(), &other), None);
}

#[test]
fn removed_notification_names_path() {
    assert_eq!(on_interfaces_removed("/be/old".to_string()), Message::Removed("/be/old".to_string()));
}
