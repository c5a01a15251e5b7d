use hypforward::{
    parse_forwards, parse_target, rule_listen_text, select_rules, ConfigError, Forward, ListenAddr, ResolvedListen,
};

fn resolved(entries: &[(&str, ListenAddr)]) -> Vec<ResolvedListen> {
    entries
        .iter()
        .map(|(text, addr)| ResolvedListen { text: text.to_string(), addr: *addr })
        .collect()
}

fn standard_table() -> Vec<ResolvedListen> {
    resolved(&[
        ("0.0.0.0:25565", ListenAddr::v4(0, 25565)),
        ("0.0.0.0:25566", ListenAddr::v4(0, 25566)),
        ("127.0.0.1:25566", ListenAddr::v4(0x7f00_0001, 25566)),
        ("[::]:25565", ListenAddr::v6(0, 25565, 0, 0)),
    ])
}

#[test]
fn parses_multiple_forwarding_rules() {
    let forwards = parse_forwards(
        &["--forward", "0.0.0.0:25565=mc.hypixel.net:25565", "-f", "127.0.0.1:25566=example.com:25567"],
        None,
        &standard_table(),
    )
    .unwrap();

    assert_eq!(forwards.len(), 2);
    assert_eq!(forwards[0].target_host, "mc.hypixel.net");
    assert_eq!(forwards[1].listen, ListenAddr::v4(0x7f00_0001, 25566));
    assert_eq!(forwards[1].target_port, 25567);
}

#[test]
fn parses_rules_from_environment() {
    let forwards = parse_forwards(
        &[],
        Some("0.0.0.0:25565=one.example:25565,0.0.0.0:25566=two.example:25565"),
        &standard_table(),
    )
    .unwrap();

    assert_eq!(forwards.len(), 2);
    assert_eq!(forwards[1].target_host, "two.example");
}

#[test]
fn rejects_duplicate_listeners() {
    let error = parse_forwards(
        &[],
        Some("0.0.0.0:25565=one.example:25565,0.0.0.0:25565=two.example:25565"),
        &standard_table(),
    )
    .unwrap_err();

    assert!(error.message("0.0.0.0:25565").contains("duplicate listen address"));
    assert!(matches!(error, ConfigError::DuplicateListen(addr) if addr == ListenAddr::v4(0, 25565)));
}

#[test]
fn error_messages_and_exit_codes() {
    let cases = [
        (ConfigError::MissingRuleValue("-f".to_string()), "-f requires LISTEN=TARGET"),
        (ConfigError::Help, ""),
        (ConfigError::UnknownArgument("-x".to_string()), "unknown argument '-x'"),
        (ConfigError::InvalidRule("r".to_string()), "invalid forwarding rule 'r': expected LISTEN=TARGET"),
        (ConfigError::InvalidListen("l".to_string()), "invalid listen address 'l'"),
        (ConfigError::MissingPort("t".to_string()), "invalid target address 't': port is required"),
        (ConfigError::InvalidHost("h".to_string()), "invalid target host 'h'"),
        (ConfigError::InvalidPort("p".to_string()), "invalid target port 'p'"),
        (ConfigError::ZeroPort, "target port must not be zero"),
        (ConfigError::NoRules, "no forwarding rules configured"),
        (ConfigError::DuplicateListen(ListenAddr::v4(0, 1)), "duplicate listen address '0.0.0.0:1'"),
    ];
    for (error, message) in cases {
        assert_eq!(error.message("0.0.0.0:1"), message);
        assert_eq!(error.exit_code(), if message.is_empty() { 0 } else { 2 });
    }
}

#[test]
fn supports_ipv6_targets() {
    let forward = Forward::parse("[::]:25565=[2001:db8::1]:25565", &standard_table()).unwrap();

    assert_eq!(forward.target_host, "2001:db8::1");
    assert_eq!(forward.target_address(true), "[2001:db8::1]:25565");
}

#[test]
fn formats_name_targets_without_brackets() {
    let forward = Forward::parse("0.0.0.0:25565=mc.hypixel.net:25565", &standard_table()).unwrap();
    assert_eq!(forward.target_address(false), "mc.hypixel.net:25565");
    assert_eq!(forward.listen, ListenAddr::v4(0, 25565));
}

#[test]
fn target_address_reads_back() {
    for (host, port, bracketed) in [("example.com", 1_u16, false), ("::1", 65535, true), ("a:b", 80, false)] {
        let forward = Forward { listen: ListenAddr::v4(0, 1), target_host: host.to_string(), target_port: port };
        let address = forward.target_address(bracketed);
        let (parsed_host, parsed_port) = parse_target(&address).unwrap();
        assert_eq!(parsed_host, host);
        assert_eq!(parsed_port, port);
    }
}

#[test]
fn uses_default_rule_without_arguments_or_environment() {
    let forwards = parse_forwards(&[], None, &standard_table()).unwrap();
    assert_eq!(forwards.len(), 1);
    assert_eq!(forwards[0].listen, ListenAddr::v4(0, 25565));
    assert_eq!(forwards[0].target_host, "mc.hypixel.net");
    assert_eq!(forwards[0].target_port, 25565);
}

#[test]
fn arguments_take_precedence_over_environment() {
    let forwards = parse_forwards(
        &["-f", "0.0.0.0:25566=example.com:1"],
        Some("0.0.0.0:25565=one.example:25565"),
        &standard_table(),
    )
    .unwrap();
    assert_eq!(forwards.len(), 1);
    assert_eq!(forwards[0].target_host, "example.com");
}

#[test]
fn skips_empty_environment_rules() {
    let forwards = parse_forwards(&[], Some(",0.0.0.0:25565=one.example:25565,,"), &standard_table()).unwrap();
    assert_eq!(forwards.len(), 1);
    let error = parse_forwards(&[], Some(",,"), &standard_table()).unwrap_err();
    assert!(matches!(error, ConfigError::NoRules));
}

#[test]
fn reports_argument_errors() {
    let table = standard_table();
    assert!(matches!(parse_forwards(&["--help"], None, &table).unwrap_err(), ConfigError::Help));
    assert!(matches!(parse_forwards(&["-h"], None, &table).unwrap_err(), ConfigError::Help));
    match parse_forwards(&["--bogus"], None, &table).unwrap_err() {
        ConfigError::UnknownArgument(arg) => assert_eq!(arg, "--bogus"),
        other => panic!("unexpected {other:?}"),
    }
    match parse_forwards(&["-f"], None, &table).unwrap_err() {
        ConfigError::MissingRuleValue(flag) => assert_eq!(flag, "-f"),
        other => panic!("unexpected {other:?}"),
    }
}

#[test]
fn rule_errors_come_before_later_argument_errors() {
    let table = standard_table();
    match parse_forwards(&["-f", "nothing-here", "--bogus"], None, &table).unwrap_err() {
        ConfigError::InvalidRule(rule) => assert_eq!(rule, "nothing-here"),
        other => panic!("unexpected {other:?}"),
    }
    match parse_forwards(&["-f", "0.0.0.0:25565=a:1", "--bogus"], None, &table).unwrap_err() {
        ConfigError::UnknownArgument(arg) => assert_eq!(arg, "--bogus"),
        other => panic!("unexpected {other:?}"),
    }
}

#[test]
fn reports_rule_errors() {
    let table = standard_table();
    match Forward::parse("1.2.3.4:5=a:1", &table).unwrap_err() {
        ConfigError::InvalidListen(text) => assert_eq!(text, "1.2.3.4:5"),
        other => panic!("unexpected {other:?}"),
    }
    match Forward::parse("0.0.0.0:25565=host", &table).unwrap_err() {
        ConfigError::MissingPort(text) => assert_eq!(text, "host"),
        other => panic!("unexpected {other:?}"),
    }
}

#[test]
fn checks_target_hosts_and_ports() {
    assert_eq!(parse_target("example.com:+80").unwrap(), ("example.com".to_string(), 80));
    assert_eq!(parse_target("[::1]:443").unwrap(), ("::1".to_string(), 443));
    assert_eq!(parse_target("[x:1").unwrap(), ("[x".to_string(), 1));
    assert_eq!(parse_target("é.example:65535").unwrap(), ("é.example".to_string(), 65535));
    assert!(matches!(parse_target(":80").unwrap_err(), ConfigError::InvalidHost(h) if h.is_empty()));
    assert!(matches!(parse_target("[]:80").unwrap_err(), ConfigError::InvalidHost(h) if h.is_empty()));
    assert!(matches!(parse_target("a\0b:80").unwrap_err(), ConfigError::InvalidHost(_)));
    let long = format!("{}:80", "a".repeat(256));
    assert!(matches!(parse_target(&long).unwrap_err(), ConfigError::InvalidHost(_)));
    let longest = format!("{}:80", "a".repeat(255));
    assert!(parse_target(&longest).is_ok());
    assert!(matches!(parse_target("a:65536").unwrap_err(), ConfigError::InvalidPort(p) if p == "65536"));
    assert!(matches!(parse_target("a:").unwrap_err(), ConfigError::InvalidPort(p) if p.is_empty()));
    assert!(matches!(parse_target("a:+").unwrap_err(), ConfigError::InvalidPort(_)));
    assert!(matches!(parse_target("a:-1").unwrap_err(), ConfigError::InvalidPort(_)));
    assert!(matches!(parse_target("a:0").unwrap_err(), ConfigError::ZeroPort));
    assert!(matches!(parse_target("a").unwrap_err(), ConfigError::MissingPort(t) if t == "a"));
}

#[test]
fn selects_listen_texts() {
    let (rules, pending) = select_rules(&["-f", "a=b:1", "-x"], None);
    assert_eq!(rules, vec!["a=b:1"]);
    assert!(matches!(pending, Some(ConfigError::UnknownArgument(_))));
    assert_eq!(rule_listen_text("0.0.0.0:1=x:2=3"), Some("0.0.0.0:1"));
    assert_eq!(rule_listen_text("no-separator"), None);
}
