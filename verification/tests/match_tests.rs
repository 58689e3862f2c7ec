use cfgcut::{run, Anonymization, CommentHandling, OutputMode, RunRequest};

const IOS_SAMPLE: &str = "hostname router1\n!\ninterface GigabitEthernet1\n ip address dhcp\n negotiation auto\n no mop enabled\n!\ninterface GigabitEthernet2\n shutdown\n";

const NXOS_SAMPLE: &str = "feature interface-vlan\ninterface Ethernet1/1\n description server-link\n no shutdown\n switchport\n";

const IOS_ROUTE_MAP_SET: &str =
    "hostname demo-ios-set\n!\nroute-map next-hop-self permit 10\n set ip next-hop peer-address\n";

const EOS_ROUTE_MAP_SET: &str = "hostname demo-eos-set\n!\ninterface Ethernet1\n description to-core\n switchport mode trunk\n!\nroute-map RM-EDGE permit 10\n set ip next-hop peer-address\n";

const JUNOS_SAMPLE: &str = "version 12.1;\nsystem {\n  host-name vsrx;\n  services {\n    ssh;\n  }\n}\ninterfaces {\n  ge-0/0/0 {\n    unit 0 {\n      family inet {\n        dhcp;\n      }\n    }\n  }\n  ge-0/0/1 {\n    unit 0;\n  }\n}\n";

const JUNOS_SET_SAMPLE: &str = "set system host-name vsrx\nset interfaces ge-0/0/0 unit 0 family inet address 10.0.0.1/24\nset interfaces ge-0/0/0 unit 0 description uplink\nset interfaces ge-0/0/1 unit 0 family inet dhcp\n";

fn run_patterns(patterns: &[&str], content: &str) -> cfgcut::RunOutput {
    let request = RunRequest {
        matches: patterns.iter().map(|p| p.to_string()).collect(),
        comment_handling: CommentHandling::Exclude,
        output_mode: OutputMode::Normal,
        anonymization: Anonymization::Disabled,
        inputs: vec![content.to_string()],
        token_output: None,
    };
    run(&request).unwrap()
}

#[test]
fn ios_single_line_without_descend() {
    let out = run_patterns(&["interface GigabitEthernet1"], IOS_SAMPLE);
    assert!(out.matched);
    assert_eq!(out.stdout, "interface GigabitEthernet1\n");
}

#[test]
fn ios_full_interface_block() {
    let out = run_patterns(&["interface GigabitEthernet1|>>|"], IOS_SAMPLE);
    let expected =
        "interface GigabitEthernet1\n ip address dhcp\n negotiation auto\n no mop enabled\n";
    assert!(out.stdout.contains(expected));
    assert!(!out.stdout.contains("GigabitEthernet2"));
}

#[test]
fn ios_descendant_match_includes_context() {
    let out = run_patterns(&["interface GigabitEthernet1||ip address .*"], IOS_SAMPLE);
    assert!(out
        .stdout
        .contains("interface GigabitEthernet1\n ip address dhcp\n"));
    assert!(!out.stdout.contains("negotiation auto"));
}

#[test]
fn ios_interface_block_matches_expected() {
    let out = run_patterns(&["interface GigabitEthernet1|>>|"], IOS_SAMPLE);
    assert_eq!(
        out.stdout,
        "interface GigabitEthernet1\n ip address dhcp\n negotiation auto\n no mop enabled\n"
    );
}

#[test]
fn ios_route_map_set_block_matches_expected() {
    let out = run_patterns(&["route-map next-hop-self permit 10|>>|"], IOS_ROUTE_MAP_SET);
    assert_eq!(
        out.stdout,
        "route-map next-hop-self permit 10\n set ip next-hop peer-address\n"
    );
}

#[test]
fn ios_hostname_with_route_map_set() {
    let out = run_patterns(&["hostname .*"], IOS_ROUTE_MAP_SET);
    assert!(out.stdout.contains("hostname demo-ios-set"));
}

#[test]
fn eos_hostname_with_route_map_set() {
    let out = run_patterns(&["hostname .*"], EOS_ROUTE_MAP_SET);
    assert!(out.stdout.contains("hostname demo-eos-set"));
}

#[test]
fn eos_interface_block_matches_expected() {
    let out = run_patterns(&["interface Ethernet1|>>|"], EOS_ROUTE_MAP_SET);
    assert_eq!(
        out.stdout,
        "interface Ethernet1\n description to-core\n switchport mode trunk\n"
    );
}

#[test]
fn eos_route_map_block_matches_expected() {
    let out = run_patterns(&["route-map RM-EDGE permit 10|>>|"], EOS_ROUTE_MAP_SET);
    assert_eq!(
        out.stdout,
        "route-map RM-EDGE permit 10\n set ip next-hop peer-address\n"
    );
}

#[test]
fn nxos_interface_match_includes_children() {
    let out = run_patterns(&["interface Ethernet1/1|>>|"], NXOS_SAMPLE);
    assert!(out.stdout.contains("interface Ethernet1/1"));
    assert!(out.stdout.contains("no shutdown"));
}

#[test]
fn nxos_interface_block_matches_expected() {
    let out = run_patterns(&["interface Ethernet1/1|>>|"], NXOS_SAMPLE);
    assert_eq!(
        out.stdout,
        "interface Ethernet1/1\n description server-link\n no shutdown\n switchport\n"
    );
}

#[test]
fn nxos_feature_line_matches_expected() {
    let out = run_patterns(&["feature interface-vlan"], NXOS_SAMPLE);
    assert_eq!(out.stdout, "feature interface-vlan\n");
}

#[test]
fn no_match_sets_nonzero_exit() {
    let out = run_patterns(&["interface Loopback0"], IOS_SAMPLE);
    assert!(!out.matched);
    assert_eq!(out.stdout, "");
}

#[test]
fn multiple_match_patterns_union_results() {
    let out = run_patterns(
        &["interface GigabitEthernet1", "interface GigabitEthernet2"],
        IOS_SAMPLE,
    );
    assert_eq!(
        out.stdout,
        "interface GigabitEthernet1\ninterface GigabitEthernet2\n"
    );
}

#[test]
fn overlapping_patterns_render_each_line_once() {
    let out = run_patterns(
        &["interface GigabitEthernet1|>>|", "interface GigabitEthernet1||ip address .*"],
        IOS_SAMPLE,
    );
    assert_eq!(
        out.stdout,
        "interface GigabitEthernet1\n ip address dhcp\n negotiation auto\n no mop enabled\n"
    );
}

#[test]
fn junos_descend_all_returns_subtree() {
    let out = run_patterns(&["system|>>|"], JUNOS_SAMPLE);
    assert!(out.stdout.contains("system {"));
    assert!(out.stdout.contains("host-name vsrx;"));
    assert!(out.stdout.contains("}"));
    assert!(!out.stdout.contains("version"));
}

#[test]
fn junos_interfaces_descend_all_limits_scope() {
    let out = run_patterns(&["interfaces|>>|"], JUNOS_SAMPLE);
    assert!(out.stdout.contains("interfaces {"));
    assert!(out.stdout.contains("ge-0/0/0"));
    assert!(!out.stdout.contains("system {"));
    assert!(!out.stdout.contains("version"));
}

#[test]
fn junos_specific_interface_descend_all_is_anchored() {
    let out = run_patterns(&["interfaces||ge-.*0|>>|"], JUNOS_SAMPLE);
    assert!(out.stdout.contains("interfaces {"));
    assert!(out.stdout.contains("ge-0/0/0"));
    assert!(!out.stdout.contains("ge-0/0/1"));
    assert!(!out.stdout.contains("system {"));
}

#[test]
fn junos_unit_match_without_descend_returns_line_and_path() {
    let out = run_patterns(&["interfaces||ge-.*||unit 0"], JUNOS_SAMPLE);
    assert!(out.stdout.contains("interfaces {"));
    assert!(out.stdout.contains("ge-0/0/0"));
    assert!(out.stdout.contains("ge-0/0/1"));
    assert!(!out.stdout.contains("family inet"));
}

#[test]
fn junos_unit_descend_returns_full_subtree() {
    let expected = "interfaces {\n  ge-0/0/0 {\n    unit 0 {\n      family inet {\n        dhcp;\n      }\n    }\n  }\n  ge-0/0/1 {\n    unit 0;\n  }\n}\n";
    let out = run_patterns(&["interfaces||ge-.*||unit 0|>>|"], JUNOS_SAMPLE);
    assert_eq!(out.stdout, expected);
}

#[test]
fn junos_brace_subtree_matches_expected() {
    let out = run_patterns(&["interfaces||ge-0/0/0|>>|"], JUNOS_SAMPLE);
    assert_eq!(
        out.stdout,
        "interfaces {\n  ge-0/0/0 {\n    unit 0 {\n      family inet {\n        dhcp;\n      }\n    }\n  }\n}\n"
    );
}

#[test]
fn junos_rendered_slice_has_balanced_braces() {
    let out = run_patterns(&["interfaces||ge-0/0/0|>>|"], JUNOS_SAMPLE);
    let opens = out.stdout.lines().filter(|l| l.trim_end().ends_with('{')).count();
    let closes = out.stdout.lines().filter(|l| l.trim() == "}").count();
    assert_eq!(opens, closes);
}

#[test]
fn junos_set_hierarchy_matches() {
    let out = run_patterns(
        &["interfaces||ge-0/0/0||unit 0||family inet||address .*"],
        JUNOS_SET_SAMPLE,
    );
    assert!(out
        .stdout
        .contains("set interfaces ge-0/0/0 unit 0 family inet address 10.0.0.1/24"));
}

#[test]
fn junos_set_subtree_expansion() {
    let out = run_patterns(&["interfaces||ge-0/0/0|>>|"], JUNOS_SET_SAMPLE);
    assert!(out
        .stdout
        .contains("set interfaces ge-0/0/0 unit 0 family inet address"));
    assert!(out
        .stdout
        .contains("set interfaces ge-0/0/0 unit 0 description"));
}

#[test]
fn junos_set_subtree_matches_expected() {
    let out = run_patterns(&["interfaces||ge-0/0/0|>>|"], JUNOS_SET_SAMPLE);
    assert_eq!(
        out.stdout,
        "set interfaces ge-0/0/0 unit 0 family inet address 10.0.0.1/24\nset interfaces ge-0/0/0 unit 0 description uplink\n"
    );
}

#[test]
fn with_comments_flag_includes_comment_lines() {
    let content = "## comment marker\nsystem {\n    host-name test;\n}\n";
    let without = run_patterns(&["|#|comment.*"], content);
    assert!(without.matched);
    assert_eq!(without.stdout, "");

    let request = RunRequest {
        matches: vec!["|#|comment.*".to_string()],
        comment_handling: CommentHandling::Include,
        output_mode: OutputMode::Normal,
        anonymization: Anonymization::Disabled,
        inputs: vec![content.to_string()],
        token_output: None,
    };
    let with = run(&request).unwrap();
    assert!(with.stdout.contains("## comment marker"));
}

#[test]
fn two_files_are_separated_and_in_order() {
    let request = RunRequest {
        matches: vec!["hostname .*".to_string()],
        comment_handling: CommentHandling::Exclude,
        output_mode: OutputMode::Normal,
        anonymization: Anonymization::Disabled,
        inputs: vec![
            IOS_ROUTE_MAP_SET.to_string(),
            EOS_ROUTE_MAP_SET.to_string(),
        ],
        token_output: None,
    };
    let out = run(&request).unwrap();
    assert_eq!(out.stdout, "hostname demo-ios-set\nhostname demo-eos-set\n");
}

#[test]
fn run_rejects_empty_matches() {
    let request = RunRequest {
        matches: vec![],
        comment_handling: CommentHandling::Exclude,
        output_mode: OutputMode::Normal,
        anonymization: Anonymization::Disabled,
        inputs: vec![IOS_SAMPLE.to_string()],
        token_output: None,
    };
    assert!(matches!(
        run(&request),
        Err(cfgcut::CfgcutError::InvalidArguments(_))
    ));
}

#[test]
fn run_rejects_empty_inputs() {
    let request = RunRequest {
        matches: vec![".*".to_string()],
        comment_handling: CommentHandling::Exclude,
        output_mode: OutputMode::Normal,
        anonymization: Anonymization::Disabled,
        inputs: vec![],
        token_output: None,
    };
    assert!(matches!(
        run(&request),
        Err(cfgcut::CfgcutError::InvalidArguments(_))
    ));
}

#[test]
fn run_rejects_invalid_regex() {
    let request = RunRequest {
        matches: vec!["(".to_string()],
        comment_handling: CommentHandling::Exclude,
        output_mode: OutputMode::Normal,
        anonymization: Anonymization::Disabled,
        inputs: vec![IOS_SAMPLE.to_string()],
        token_output: None,
    };
    match run(&request) {
        Err(cfgcut::CfgcutError::Pattern(raw, _)) => assert_eq!(raw, "("),
        _ => panic!("an invalid regular expression must be refused"),
    }
}

#[test]
fn run_rejects_empty_pattern_string() {
    let request = RunRequest {
        matches: vec!["".to_string()],
        comment_handling: CommentHandling::Exclude,
        output_mode: OutputMode::Normal,
        anonymization: Anonymization::Disabled,
        inputs: vec![IOS_SAMPLE.to_string()],
        token_output: None,
    };
    assert!(matches!(
        run(&request),
        Err(cfgcut::CfgcutError::InvalidArguments(_))
    ));
}

#[test]
fn quiet_mode_with_anonymize_retains_success() {
    let request = RunRequest {
        matches: vec!["interface GigabitEthernet1".to_string()],
        comment_handling: CommentHandling::Exclude,
        output_mode: OutputMode::Quiet,
        anonymization: Anonymization::Enabled,
        inputs: vec![IOS_SAMPLE.to_string()],
        token_output: None,
    };
    let out = run(&request).unwrap();
    assert!(out.matched);
}

#[test]
fn glob_pattern_detects_metacharacters() {
    assert_eq!(cfgcut::glob_pattern("configs/*.cfg").as_deref(), Some("configs/*.cfg"));
    assert_eq!(cfgcut::glob_pattern("what?.cfg").as_deref(), Some("what?.cfg"));
    assert_eq!(cfgcut::glob_pattern("[ab].cfg").as_deref(), Some("[ab].cfg"));
    assert!(cfgcut::glob_pattern("plain/path.cfg").is_none());
}

#[test]
fn trailing_text_after_descend_is_unreachable() {
    // a fragment after the descend-all operator compiles but never changes
    // the result: the operator is terminal
    let with_tail = run_patterns(&["interface GigabitEthernet1|>>|shutdown"], IOS_SAMPLE);
    let without_tail = run_patterns(&["interface GigabitEthernet1|>>|"], IOS_SAMPLE);
    assert_eq!(with_tail.stdout, without_tail.stdout);
}
