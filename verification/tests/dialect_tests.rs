use cfgcut::{
    parse_with_detect, DialectKind, LineKind, MatchAccumulator, ParsedConfig, Pattern,
};

#[test]
fn detect_brace_dialect() {
    let text = "system {\n    services {\n        ssh;\n    }\n}";
    let (kind, _) = parse_with_detect(text);
    assert!(matches!(kind, DialectKind::JuniperJunos));
}

#[test]
fn detect_indent_dialect() {
    let text = "interface GigabitEthernet1\n ip address dhcp";
    let (kind, _) = parse_with_detect(text);
    assert!(matches!(
        kind,
        DialectKind::CiscoIos | DialectKind::AristaEos
    ));
}

#[test]
fn detect_set_dialect() {
    let text = "set system host-name vsrx\n";
    let (kind, _) = parse_with_detect(text);
    assert!(matches!(kind, DialectKind::JuniperJunosSet));
}

#[test]
fn comment_pattern_matches() {
    let text = "## Last changed: today\nsystem {\n}\n";
    let config = ParsedConfig::from_text(text);
    let pattern = Pattern::parse("|#|Last changed: .*").unwrap();
    let mut accumulator = MatchAccumulator::new(&config);
    pattern.apply(&config, &mut accumulator);
    assert!(accumulator.matched);
}

#[test]
fn comment_pattern_ignores_command_lines() {
    // the same text as a command line must not satisfy a comment pattern
    let text = "Last changed: today\n";
    let config = ParsedConfig::from_text(text);
    let pattern = Pattern::parse("|#|Last changed: .*").unwrap();
    let mut accumulator = MatchAccumulator::new(&config);
    pattern.apply(&config, &mut accumulator);
    assert!(!accumulator.matched);
}

#[test]
fn indent_parent_is_nearest_smaller_indent() {
    let text = "interface GigabitEthernet1\n ip address dhcp\n negotiation auto\nhostname r1\n";
    let config = ParsedConfig::from_text(text);
    assert_eq!(config.lines.len(), 4);
    assert_eq!(config.lines[0].parent, None);
    assert_eq!(config.lines[1].parent, Some(0));
    assert_eq!(config.lines[2].parent, Some(0));
    assert_eq!(config.lines[3].parent, None);
}

#[test]
fn children_lists_invert_parents() {
    let text = "a\n b\n  c\n b2\nd\n";
    let config = ParsedConfig::from_text(text);
    for (i, line) in config.lines.iter().enumerate() {
        if let Some(p) = line.parent {
            assert!(config.children[p].contains(&i));
        }
        for &c in &config.children[i] {
            assert_eq!(config.lines[c].parent, Some(i));
        }
    }
    // child lists are ascending
    for kids in &config.children {
        for w in kids.windows(2) {
            assert!(w[0] < w[1]);
        }
    }
}

#[test]
fn brace_closing_is_child_of_opener() {
    let text = "system {\n  host-name x;\n}\n";
    let config = ParsedConfig::from_text(text);
    assert_eq!(config.lines.len(), 3);
    assert!(matches!(config.lines[0].kind, LineKind::Command));
    assert_eq!(config.lines[0].match_text.as_deref(), Some("system"));
    assert_eq!(config.lines[1].parent, Some(0));
    assert_eq!(config.lines[1].match_text.as_deref(), Some("host-name x"));
    assert!(matches!(config.lines[2].kind, LineKind::Closing));
    assert_eq!(config.lines[2].parent, Some(0));
}

#[test]
fn set_dialect_builds_shared_ancestors() {
    let text = "set interfaces ge-0/0/0 unit 0 family inet address 10.0.0.1/24\nset interfaces ge-0/0/0 unit 0 description uplink\n";
    let config = ParsedConfig::from_text(text);
    // both literal lines hang below the same synthetic `unit 0` node
    let real: Vec<usize> = (0..config.lines.len())
        .filter(|&i| !config.lines[i].synthetic)
        .collect();
    assert_eq!(real.len(), 2);
    assert_eq!(
        config.lines[real[0]].match_text.as_deref(),
        Some("address 10.0.0.1/24")
    );
    assert_eq!(
        config.lines[real[1]].match_text.as_deref(),
        Some("description uplink")
    );
    let p0 = config.lines[real[0]].parent.unwrap();
    let p1 = config.lines[real[1]].parent.unwrap();
    assert_eq!(config.lines[p0].match_text.as_deref(), Some("family inet"));
    let unit = config.lines[p0].parent.unwrap();
    assert_eq!(p1, unit, "the description line shares the unit 0 ancestor");
    assert_eq!(config.lines[unit].match_text.as_deref(), Some("unit 0"));
}

#[test]
fn parsing_is_total_on_arbitrary_input() {
    for text in [
        "",
        "\n\n\n",
        "}}}{{{",
        "set\nset \nset x\n",
        "   \t weird \u{2603} unicode {\n}",
        "a\n\tb\n   c\r\nd",
    ] {
        cfgcut::fuzz_parse(text);
        cfgcut::fuzz_matcher(".*", text);
        cfgcut::fuzz_matcher("|>>|", text);
        cfgcut::fuzz_matcher("(", text);
    }
}
