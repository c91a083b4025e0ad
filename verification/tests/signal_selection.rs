use agent_sim::envd::catalog::build_env_signal_catalog;
use agent_sim::protocol::SignalData;
use agent_sim::signal_selectors::{
    parse_u32_decimal, select_instance_signal_ids, sort_by_qualified_name, EnvSignalCatalog, EnvSignalCatalogEntry,
};
use agent_sim::sim::types::{SignalMeta, SignalType};

fn signal(id: u32, name: &str) -> SignalMeta {
    SignalMeta {
        id,
        name: name.to_string(),
        signal_type: SignalType::U32,
        units: None,
    }
}

fn entry(instance: &str, local_id: u32, signal_name: &str) -> EnvSignalCatalogEntry {
    EnvSignalCatalogEntry {
        instance: instance.to_string(),
        local_id,
        signal_name: signal_name.to_string(),
        qualified_name: format!("{instance}:{signal_name}"),
        signal_type: SignalType::F32,
        units: None,
    }
}

fn selectors(items: &[&str]) -> Vec<String> {
    items.iter().map(|s| s.to_string()).collect()
}

fn project_signals() -> Vec<SignalMeta> {
    vec![signal(7, "hvac.temp"), signal(3, "hvac.power"), signal(9, "fan.speed")]
}

#[test]
fn instance_selection_is_sorted_and_unique() {
    let signals = project_signals();
    assert_eq!(select_instance_signal_ids(&signals, &selectors(&["*"])), Ok(vec![3, 7, 9]));
    assert_eq!(
        select_instance_signal_ids(&signals, &selectors(&["hvac.*", "#3", "fan.speed"])),
        Ok(vec![3, 7, 9])
    );
    assert_eq!(select_instance_signal_ids(&signals, &selectors(&["hvac.t?mp"])), Ok(vec![7]));
}

#[test]
fn instance_selection_reports_the_first_failure() {
    let signals = project_signals();
    assert_eq!(
        select_instance_signal_ids(&signals, &[]),
        Err("missing signal selectors".to_string())
    );
    assert_eq!(
        select_instance_signal_ids(&signals, &selectors(&["#4"])),
        Err("signal not found: '#4'".to_string())
    );
    assert_eq!(
        select_instance_signal_ids(&signals, &selectors(&["#007", "nope"])),
        Err("signal not found: 'nope'".to_string())
    );
    assert_eq!(
        select_instance_signal_ids(&signals, &selectors(&["door.*"])),
        Err("signal glob matched nothing: 'door.*'".to_string())
    );
    assert!(select_instance_signal_ids(&signals, &selectors(&["[oops"])).is_err());
}

#[test]
fn hash_ids_parse_like_std() {
    let chars = |s: &str| s.chars().collect::<Vec<char>>();
    assert_eq!(parse_u32_decimal(&chars("42")), Ok(42));
    assert_eq!(parse_u32_decimal(&chars("+42")), Ok(42));
    assert_eq!(parse_u32_decimal(&chars("4294967295")), Ok(u32::MAX));
    for raw in ["", "+", "-1", "4x", "4294967296", "99999999999x"] {
        let ours = parse_u32_decimal(&chars(raw));
        let std = raw.parse::<u32>().map_err(|e| e.to_string());
        assert_eq!(ours, std, "input {raw:?}");
    }
}

#[test]
fn catalog_orders_entries_by_qualified_name() {
    let catalog = EnvSignalCatalog::build(vec![entry("b", 1, "x"), entry("a", 2, "y"), entry("a", 3, "x")])
        .expect("distinct names should build");
    let names: Vec<&str> = catalog.entries().iter().map(|e| e.qualified_name.as_str()).collect();
    assert_eq!(names, vec!["a:x", "a:y", "b:x"]);
    let sorted = sort_by_qualified_name(vec![entry("b", 1, "x"), entry("a", 2, "x")]);
    assert_eq!(sorted[0].local_id, 2);
}

#[test]
fn catalog_rejects_duplicates_and_reserved_colons() {
    let dup = EnvSignalCatalog::build(vec![entry("a", 1, "x"), entry("a", 2, "x")]);
    assert_eq!(
        dup.err(),
        Some("duplicate env qualified signal 'a:x'; entries 0 and 1 collide".to_string())
    );
    let colon = EnvSignalCatalog::build(vec![entry("a", 1, "x:y")]);
    assert_eq!(
        colon.err(),
        Some("signal 'x:y' in instance 'a' contains reserved ':'".to_string())
    );
}

#[test]
fn catalog_selectors_resolve_names_and_globs() {
    let catalog = EnvSignalCatalog::build(vec![entry("ecu-a", 1, "speed"), entry("ecu-b", 2, "speed"), entry("ecu-a", 3, "temp")])
        .expect("catalog should build");
    assert_eq!(catalog.resolve_selector_indices("*"), Ok(vec![0, 1, 2]));
    assert_eq!(catalog.resolve_selector_indices("ecu-b:speed"), Ok(vec![2]));
    assert_eq!(catalog.resolve_selector_indices("*:speed"), Ok(vec![0, 2]));
    assert_eq!(catalog.resolve_selector_indices("ecu-a:*"), Ok(vec![0, 1]));
    assert_eq!(
        catalog.resolve_selector_indices("speed"),
        Err("invalid env selector 'speed'; expected '<instance>:<signal>' or '*'".to_string())
    );
    assert_eq!(
        catalog.resolve_selector_indices("ecu-a:#1"),
        Err("env selector 'ecu-a:#1' cannot use local signal ids; use qualified signal names".to_string())
    );
    assert_eq!(
        catalog.resolve_selector_indices("ecu-c:*"),
        Err("env selector matched nothing: 'ecu-c:*'".to_string())
    );
    assert_eq!(
        catalog.resolve_selectors(&selectors(&["ecu-a:temp", "ecu-b:speed"])),
        Ok(vec![1, 2])
    );
    assert_eq!(
        catalog.resolve_selectors(&[]),
        Err("missing env signal selectors".to_string())
    );
}

fn data(id: u32, name: &str) -> SignalData {
    SignalData {
        id,
        name: name.to_string(),
        signal_type: SignalType::Bool,
        units: Some("V".to_string()),
    }
}

#[test]
fn env_catalog_qualifies_instance_signals() {
    let groups = vec![
        ("ecu-b".to_string(), vec![data(1, "speed")]),
        ("ecu-a".to_string(), vec![data(4, "temp"), data(2, "speed")]),
    ];
    let catalog = build_env_signal_catalog(&groups).expect("distinct names should build");
    let names: Vec<&str> = catalog.entries().iter().map(|e| e.qualified_name.as_str()).collect();
    assert_eq!(names, vec!["ecu-a:speed", "ecu-a:temp", "ecu-b:speed"]);
    assert_eq!(catalog.entries()[0].local_id, 2);
    assert_eq!(catalog.entries()[0].units.as_deref(), Some("V"));
}

#[test]
fn env_catalog_refuses_reserved_colons_first() {
    let groups = vec![
        ("ecu-a".to_string(), vec![data(1, "a"), data(2, "a")]),
        ("ecu-b".to_string(), vec![data(3, "x:y")]),
    ];
    assert_eq!(
        build_env_signal_catalog(&groups).err(),
        Some("instance 'ecu-b' exposes signal 'x:y' with reserved ':'".to_string())
    );
    let dup = vec![("ecu-a".to_string(), vec![data(1, "a"), data(2, "a")])];
    assert!(build_env_signal_catalog(&dup).is_err());
}

#[test]
fn built_catalog_holds_each_entry_once_in_ascending_name_order() {
    let catalog = EnvSignalCatalog::build(vec![entry("b", 1, "x"), entry("a", 2, "y"), entry("a", 3, "b")])
        .expect("valid entries build");
    let names: Vec<&str> = catalog.entries().iter().map(|e| e.qualified_name.as_str()).collect();
    assert_eq!(names, vec!["a:b", "a:y", "b:x"]);
    assert!(EnvSignalCatalog::build(vec![entry("a", 1, "x"), entry("a", 2, "x")]).is_err());
}

#[test]
fn glob_selectors_without_backslashes_pick_by_pattern() {
    let signals = project_signals();
    assert_eq!(select_instance_signal_ids(&signals, &selectors(&["hvac.*"])), Ok(vec![3, 7]));
}
