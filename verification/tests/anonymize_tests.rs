use cfgcut::{
    collect_plain_tokens, run, Anonymization, Anonymizer, CommentHandling, OutputMode, RunRequest,
    TokenDestination, TokenKind,
};

const SENSITIVE: &str =
    "username admin password 0 adminpass\nrouter bgp 65000\n neighbor 192.0.2.1 remote-as 65001\n";

#[test]
fn anonymize_scrambles_sensitive_tokens() {
    let request = RunRequest {
        matches: vec![".*".to_string()],
        comment_handling: CommentHandling::Exclude,
        output_mode: OutputMode::Normal,
        anonymization: Anonymization::Enabled,
        inputs: vec![SENSITIVE.to_string()],
        token_output: None,
    };
    let out = run(&request).unwrap();
    assert!(!out.stdout.contains("admin"));
    assert!(!out.stdout.contains("adminpass"));
    assert!(!out.stdout.contains("65000"));
    assert!(!out.stdout.contains("65001"));
    assert!(!out.stdout.contains("192.0.2.1"));
    assert!(out.stdout.contains("user1"));
    assert!(out.stdout.contains("scrambled1"));
}

#[test]
fn tokens_flag_emits_json_lines() {
    // the records themselves are inspected; serialization is the caller's
    // concern
    let request = RunRequest {
        matches: vec!["username .*".to_string(), "router bgp .*|>>|".to_string()],
        comment_handling: CommentHandling::Exclude,
        output_mode: OutputMode::Normal,
        anonymization: Anonymization::Disabled,
        inputs: vec![SENSITIVE.to_string()],
        token_output: Some(TokenDestination::Stdout),
    };
    let out = run(&request).unwrap();
    assert!(out
        .tokens
        .iter()
        .any(|t| matches!(t.kind, TokenKind::Username) && t.original == "admin"));
    assert!(out
        .tokens
        .iter()
        .any(|t| matches!(t.kind, TokenKind::Asn) && t.original == "65000"));
    assert!(out
        .tokens
        .iter()
        .any(|t| matches!(t.kind, TokenKind::Asn) && t.original == "65001"));
    assert!(out
        .tokens
        .iter()
        .any(|t| matches!(t.kind, TokenKind::Ip) && t.original == "192.0.2.1"));
    assert!(out
        .tokens
        .iter()
        .any(|t| matches!(t.kind, TokenKind::Secret) && t.original == "adminpass"));
}

#[test]
fn tokens_out_writes_file() {
    // the record list handed back for persisting holds both kinds
    let request = RunRequest {
        matches: vec![".*".to_string()],
        comment_handling: CommentHandling::Exclude,
        output_mode: OutputMode::Quiet,
        anonymization: Anonymization::Disabled,
        inputs: vec!["neighbor 192.0.2.1 remote-as 65001\n".to_string()],
        token_output: Some(TokenDestination::File("tokens.json".to_string())),
    };
    let out = run(&request).unwrap();
    assert!(out.tokens.iter().any(|t| matches!(t.kind, TokenKind::Ip)));
    assert!(out.tokens.iter().any(|t| matches!(t.kind, TokenKind::Asn)));
}

#[test]
fn token_records_carry_path_and_line() {
    let request = RunRequest {
        matches: vec!["router bgp .*|>>|".to_string()],
        comment_handling: CommentHandling::Exclude,
        output_mode: OutputMode::Normal,
        anonymization: Anonymization::Disabled,
        inputs: vec![SENSITIVE.to_string()],
        token_output: Some(TokenDestination::Stdout),
    };
    let out = run(&request).unwrap();
    let ip = out
        .tokens
        .iter()
        .find(|t| matches!(t.kind, TokenKind::Ip))
        .expect("the neighbor address is captured");
    assert_eq!(ip.original, "192.0.2.1");
    assert_eq!(ip.line, 3);
    assert_eq!(
        ip.path,
        vec![
            "router bgp 65000".to_string(),
            "neighbor 192.0.2.1 remote-as 65001".to_string()
        ]
    );
    assert!(ip.anonymized.is_none());
}

#[test]
fn anonymize_with_comments_scrubs_comment_tokens() {
    let request = RunRequest {
        matches: vec!["|#|IP .*".to_string()],
        comment_handling: CommentHandling::Include,
        output_mode: OutputMode::Normal,
        anonymization: Anonymization::Enabled,
        inputs: vec!["## IP 192.0.2.1\n".to_string()],
        token_output: None,
    };
    let out = run(&request).unwrap();
    assert!(out.stdout.contains("203.0.113."));
    assert!(!out.stdout.contains("192.0.2.1"));
}

#[test]
fn same_original_always_gets_same_replacement() {
    let mut tool = Anonymizer::new();
    let first = tool.scrub(&"username admin".to_string());
    let second = tool.scrub(&"username admin".to_string());
    assert_eq!(first, second);
    assert_eq!(first, "username user1");
}

#[test]
fn fresh_run_repeats_assignment_order() {
    let lines = ["username alice", "username bob", "username alice"];
    let mut one = Anonymizer::new();
    let first: Vec<String> = lines.iter().map(|l| one.scrub(&l.to_string())).collect();
    let mut two = Anonymizer::new();
    let second: Vec<String> = lines.iter().map(|l| two.scrub(&l.to_string())).collect();
    assert_eq!(first, second);
    assert_eq!(first[0], "username user1");
    assert_eq!(first[1], "username user2");
    assert_eq!(first[2], "username user1");
}

#[test]
fn plain_and_scrubbed_captures_report_same_originals() {
    let line = "username admin password 0 adminpass".to_string();
    let plain = collect_plain_tokens(&line);
    let mut tool = Anonymizer::new();
    let mut scrubbed = Vec::new();
    let _ = tool.scrub_with_tokens(&line, &mut scrubbed);
    assert_eq!(plain.len(), scrubbed.len());
    for (p, s) in plain.iter().zip(scrubbed.iter()) {
        assert_eq!(p.original, s.original);
        assert_eq!(p.kind, s.kind);
        assert!(p.anonymized.is_none());
        assert!(s.anonymized.is_some());
    }
}

#[test]
fn plain_collection_classifies_each_category() {
    let line = "username admin password 0 adminpass".to_string();
    let caps = collect_plain_tokens(&line);
    assert_eq!(caps.len(), 2);
    assert!(matches!(caps[0].kind, TokenKind::Username));
    assert_eq!(caps[0].original, "admin");
    assert!(matches!(caps[1].kind, TokenKind::Secret));
    assert_eq!(caps[1].original, "adminpass");

    let line2 = "neighbor 2001:db8::7 remote-as 65001".to_string();
    let caps2 = collect_plain_tokens(&line2);
    assert!(caps2
        .iter()
        .any(|c| matches!(c.kind, TokenKind::Ip) && c.original == "2001:db8::7"));
    assert!(caps2
        .iter()
        .any(|c| matches!(c.kind, TokenKind::Asn) && c.original == "65001"));
}

#[test]
fn ip_replacement_keeps_prefix_length() {
    let mut tool = Anonymizer::new();
    let scrubbed = tool.scrub(&"set interfaces ge-0/0/0 unit 0 family inet address 10.0.0.1/24".to_string());
    assert!(!scrubbed.contains("10.0.0.1"));
    assert!(scrubbed.contains("203.0.113.1/24"));
}

#[test]
fn scrub_leaves_plain_text_untouched() {
    let mut tool = Anonymizer::new();
    let line = "interface GigabitEthernet1".to_string();
    assert_eq!(tool.scrub(&line), line);
}

#[test]
fn token_kind_tags() {
    assert_eq!(TokenKind::Username.as_str(), "username");
    assert_eq!(TokenKind::Secret.as_str(), "secret");
    assert_eq!(TokenKind::Asn.as_str(), "asn");
    assert_eq!(TokenKind::Ip.as_str(), "ip");
}
