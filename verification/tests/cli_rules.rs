use agent_sim::cli::{
    inherit_instance, resolve_instance,
    validate_recipe_targets,
    parse_arb_id, parse_env_member, parse_set_entries, parse_shared_channel_selector, validate_allowed_env,
    validate_assert_spec, AssertPresence, CliError, SetArgs,
};
use agent_sim::daemon::{absolute_path_check, ensure_absolute_path};
use agent_sim::name::{validate_env_name, validate_instance_name};

#[test]
fn set_parser_accepts_single_pair() {
    let set = SetArgs {
        entries: vec!["sig".to_string(), "1".to_string()],
    };
    let writes = parse_set_entries(&set).expect("single pair set syntax should parse");
    assert_eq!(writes.get("sig"), Some(&"1".to_string()));
}

#[test]
fn set_parser_accepts_equals_pairs() {
    let set = SetArgs {
        entries: vec!["a=1".to_string(), "b=true".to_string()],
    };
    let writes = parse_set_entries(&set).expect("equals-pairs set syntax should parse");
    assert_eq!(writes.len(), 2);
}

#[test]
fn set_parser_rejects_mixed_syntax() {
    let set = SetArgs {
        entries: vec!["a=1".to_string(), "b".to_string()],
    };
    assert!(parse_set_entries(&set).is_err());
}

#[test]
fn set_parser_keeps_last_write_of_a_key_and_sorts_keys() {
    let set = SetArgs {
        entries: vec!["b=1".to_string(), "a=2".to_string(), "b=3".to_string()],
    };
    let writes = parse_set_entries(&set).expect("repeated keys should parse");
    assert_eq!(writes.len(), 2);
    assert_eq!(writes.get("b"), Some(&"3".to_string()));
    let keys: Vec<&str> = writes.pairs().iter().map(|(k, _)| k.as_str()).collect();
    assert_eq!(keys, vec!["a", "b"]);
}

#[test]
fn set_parser_rejects_empty_entries() {
    let set = SetArgs { entries: vec![] };
    assert_eq!(parse_set_entries(&set).unwrap_err(), CliError::InvalidSetSyntax);
}

#[test]
fn arb_id_parser_accepts_hex_and_decimal() {
    assert_eq!(parse_arb_id("0x7FF").expect("hex arb id should parse"), 0x7FF);
    assert_eq!(parse_arb_id("2048").expect("decimal arb id should parse"), 2048);
    assert!(parse_arb_id("xyz").is_err());
}

#[test]
fn shared_selector_parser_accepts_wildcard_suffix() {
    assert_eq!(
        parse_shared_channel_selector("sensor_feed.*").expect("shared selector should parse"),
        "sensor_feed"
    );
    assert_eq!(
        parse_shared_channel_selector("sensor_feed").expect("plain selector should parse"),
        "sensor_feed"
    );
    assert!(parse_shared_channel_selector(".*").is_err());
}

#[test]
fn env_member_defaults_bus_name() {
    assert_eq!(
        parse_env_member("ecu-a", "internal").expect("plain member should parse"),
        ("ecu-a".to_string(), "internal".to_string())
    );
    assert_eq!(
        parse_env_member("ecu-a:chassis", "internal").expect("qualified member should parse"),
        ("ecu-a".to_string(), "chassis".to_string())
    );
}

#[test]
fn allowed_env_check_names_the_allowed_envs() {
    let allowed = vec!["bench".to_string(), "hil".to_string()];
    assert!(validate_allowed_env("ecu", Some("hil"), &allowed).is_ok());
    match validate_allowed_env("ecu", Some("lab"), &allowed) {
        Err(CliError::CommandFailed(m)) => assert_eq!(
            m,
            "recipe only allowed in envs [bench, hil], but instance 'ecu' is in env 'lab'"
        ),
        other => panic!("unexpected result: {other:?}"),
    }
    match validate_allowed_env("ecu", None, &allowed) {
        Err(CliError::CommandFailed(m)) => assert_eq!(
            m,
            "recipe only allowed in envs [bench, hil], but instance 'ecu' is not attached to any env"
        ),
        other => panic!("unexpected result: {other:?}"),
    }
}

fn presence() -> AssertPresence {
    AssertPresence {
        eq: false,
        gt: false,
        lt: false,
        gte: false,
        lte: false,
        approx: false,
        tolerance: false,
    }
}

#[test]
fn approx_requires_explicit_tolerance() {
    let mut assert = presence();
    assert.approx = true;
    let err = validate_assert_spec("demo.output", &assert).expect_err("approx without tolerance should fail");
    assert!(err.contains("explicit tolerance"));
}

#[test]
fn assert_spec_accepts_a_single_comparator() {
    let mut assert = presence();
    assert.gt = true;
    assert!(validate_assert_spec("demo.output", &assert).is_ok());
    let mut both = presence();
    both.gt = true;
    both.lt = true;
    assert!(validate_assert_spec("demo.output", &both).is_err());
    assert!(validate_assert_spec("demo.output", &presence()).is_err());
}

#[test]
fn ensure_absolute_path_rejects_relative_paths() {
    let err = ensure_absolute_path("dbc/internal.dbc", "DBC").expect_err("relative path must fail");
    assert!(err.contains("path must be absolute"), "unexpected error: {err}");
}

#[test]
fn absolute_path_check_follows_the_platform_answer() {
    assert!(absolute_path_check("/tmp/a.dbc", "DBC", true).is_ok());
    assert!(absolute_path_check("a.dbc", "DBC", false).is_err());
}

#[test]
fn accepts_alnum_underscore_dash_names() {
    assert!(validate_instance_name("inst_1-a").is_ok());
    assert!(validate_env_name("env-ALPHA_2").is_ok());
}

#[test]
fn rejects_invalid_name_characters() {
    for name in ["", "inst:a", "env.main", "two words", "name/segment"] {
        assert!(validate_instance_name(name).is_err(), "instance name should be rejected: {name}");
        assert!(validate_env_name(name).is_err(), "env name should be rejected: {name}");
    }
}

#[test]
fn recipes_need_their_instances_running_in_allowed_envs() {
    let running = vec![
        ("ecu".to_string(), Some("bench".to_string())),
        ("gw".to_string(), None),
    ];
    let bench = vec!["bench".to_string()];
    assert!(validate_recipe_targets(&running, "ecu", &bench, &[]).is_ok());
    assert!(validate_recipe_targets(&running, "gw", &[], &["ecu".to_string()]).is_ok());
    assert_eq!(
        validate_recipe_targets(&running, "missing", &[], &[]).unwrap_err(),
        CliError::CommandFailed("recipe target instance 'missing' is not running".to_string())
    );
    assert_eq!(
        validate_recipe_targets(&running, "ecu", &[], &["other".to_string()]).unwrap_err(),
        CliError::CommandFailed("recipe requires instance 'other' to be running".to_string())
    );
    assert_eq!(
        validate_recipe_targets(&running, "ecu", &bench, &["gw".to_string()]).unwrap_err(),
        CliError::CommandFailed(
            "recipe only allowed in envs [bench], but instance 'gw' is not attached to any env".to_string()
        )
    );
}

#[test]
fn ensure_absolute_path_refuses_bare_file_names() {
    assert_eq!(
        ensure_absolute_path("internal.dbc", "DBC").unwrap_err(),
        "DBC path must be absolute: 'internal.dbc'"
    );
}

#[test]
fn recipe_steps_take_their_own_instance_else_the_inherited_one() {
    assert_eq!(resolve_instance("ecu", &Some("bcm".to_string())), "bcm");
    assert_eq!(resolve_instance("ecu", &None), "ecu");
    assert_eq!(inherit_instance(&Some("bcm".to_string()), Some("ecu")), Some("bcm".to_string()));
    assert_eq!(inherit_instance(&None, Some("ecu")), Some("ecu".to_string()));
    assert_eq!(inherit_instance(&None, None), None);
}

#[test]
fn ensure_absolute_path_refuses_relative_paths_with_separators() {
    assert_eq!(
        ensure_absolute_path("dbc/internal.dbc", "DBC").unwrap_err(),
        "DBC path must be absolute: 'dbc/internal.dbc'"
    );
}
