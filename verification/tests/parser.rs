use sshpick::host::{Host, SshConfError, SshSetting};
use sshpick::model::SshConf;
use sshpick::serial::to_config_text;

fn parse_ok(text: &str) -> Vec<Host> {
    match sshpick::parser::parse_config(text) {
        Ok(hosts) => hosts,
        Err(_) => panic!("expected a successful parse"),
    }
}

fn parse_err(text: &str) -> (usize, String) {
    match sshpick::parser::parse_config(text) {
        Ok(_) => panic!("expected a parse error"),
        Err(SshConfError::ParseError(line, msg)) => (line, msg),
        Err(SshConfError::Io(_)) => panic!("unexpected error kind"),
    }
}

#[test]
fn two_records_scenario() {
    let text = "Host alpha\n    HostName 10.0.0.1\n    Port 2222\nHost beta\n    User root\n";
    let hosts = parse_ok(text);
    assert_eq!(hosts.len(), 2);
    assert_eq!(hosts[0].host_id, "alpha");
    assert_eq!(hosts[0].host_name.as_deref(), Some("10.0.0.1"));
    assert_eq!(hosts[0].port, Some(2222));
    assert_eq!(hosts[0].user, None);
    assert_eq!(hosts[0].proxy_jump, None);
    assert_eq!(hosts[0].local_forward, None);
    assert_eq!(hosts[0].id_file, None);
    assert!(!hosts[0].expanded);
    assert_eq!(hosts[1].host_id, "beta");
    assert_eq!(hosts[1].user.as_deref(), Some("root"));
    assert_eq!(hosts[1].host_name, None);
    assert_eq!(hosts[1].port, None);
}

#[test]
fn orphan_setting_first_line() {
    let (line, msg) = parse_err("Foo bar");
    assert_eq!(line, 1);
    assert_eq!(msg, "Setting outside of Host block");
}

#[test]
fn lowercase_host_keyword_is_not_a_block() {
    let (line, msg) = parse_err("host alpha\n");
    assert_eq!(line, 1);
    assert_eq!(msg, "Setting outside of Host block");
}

#[test]
fn unknown_key_rejected() {
    let (line, msg) = parse_err("Host a\n    Frobnicate zap\n");
    assert_eq!(line, 2);
    assert_eq!(msg, "Invalid config line format");
}

#[test]
fn missing_value_rejected() {
    let (line, msg) = parse_err("Host a\n    hostname\n");
    assert_eq!(line, 2);
    assert_eq!(msg, "Invalid config line format");
}

#[test]
fn error_line_counts_blank_and_comment_lines() {
    let (line, msg) = parse_err("# heading\n\nHost a\nBad\n");
    assert_eq!(line, 4);
    assert_eq!(msg, "Invalid config line format");
}

#[test]
fn duplicate_key_last_wins() {
    let hosts = parse_ok("Host a\n    HostName first\n    HostName second\n");
    assert_eq!(hosts[0].host_name.as_deref(), Some("second"));
}

#[test]
fn port_non_numeric_is_absent_not_error() {
    let hosts = parse_ok("Host a\n    Port notanumber\n");
    assert_eq!(hosts.len(), 1);
    assert_eq!(hosts[0].port, None);
}

#[test]
fn port_overflow_is_absent() {
    let hosts = parse_ok("Host a\n    Port 99999999999\n");
    assert_eq!(hosts[0].port, None);
}

#[test]
fn port_max_value_parses() {
    let hosts = parse_ok("Host a\n    Port 4294967295\n");
    assert_eq!(hosts[0].port, Some(4294967295));
}

#[test]
fn keys_are_case_insensitive() {
    let hosts = parse_ok("Host a\n    HOSTNAME x\n    PoRt 22\n    IDENTITYFILE f\n");
    assert_eq!(hosts[0].host_name.as_deref(), Some("x"));
    assert_eq!(hosts[0].port, Some(22));
    assert_eq!(hosts[0].id_file.as_deref(), Some("f"));
}

#[test]
fn host_line_extra_tokens_discarded() {
    let hosts = parse_ok("Host a b c\n");
    assert_eq!(hosts.len(), 1);
    assert_eq!(hosts[0].host_id, "a");
}

#[test]
fn empty_input_gives_no_hosts() {
    assert_eq!(parse_ok("").len(), 0);
    assert_eq!(parse_ok("\n# only a comment\n\n").len(), 0);
}

#[test]
fn crlf_lines_are_handled() {
    let hosts = parse_ok("Host a\r\n    HostName x\r\n");
    assert_eq!(hosts[0].host_id, "a");
    assert_eq!(hosts[0].host_name.as_deref(), Some("x"));
}

#[test]
fn surrounding_whitespace_is_trimmed() {
    let hosts = parse_ok("   Host a   \n\t hostname x \n");
    assert_eq!(hosts[0].host_id, "a");
    assert_eq!(hosts[0].host_name.as_deref(), Some("x"));
}

#[test]
fn value_may_contain_spaces() {
    let hosts = parse_ok("Host a\n    LocalForward 8080 localhost:80\n");
    assert_eq!(hosts[0].local_forward.as_deref(), Some("8080 localhost:80"));
}

#[test]
fn all_settings_assign_their_fields() {
    let hosts = parse_ok(
        "Host a\n    HostName h\n    Port 22\n    User u\n    ProxyJump p\n    LocalForward l\n    IdentityFile i\n",
    );
    let h = &hosts[0];
    assert_eq!(h.host_name.as_deref(), Some("h"));
    assert_eq!(h.port, Some(22));
    assert_eq!(h.user.as_deref(), Some("u"));
    assert_eq!(h.proxy_jump.as_deref(), Some("p"));
    assert_eq!(h.local_forward.as_deref(), Some("l"));
    assert_eq!(h.id_file.as_deref(), Some("i"));
}

#[test]
fn setting_kind_from_str() {
    assert!(matches!(SshSetting::from_str("port"), Some(SshSetting::Port)));
    assert!(matches!(SshSetting::from_str("PORT"), Some(SshSetting::Port)));
    assert!(matches!(
        SshSetting::from_str("HostName"),
        Some(SshSetting::HostName)
    ));
    assert!(matches!(
        SshSetting::from_str("proxyjump"),
        Some(SshSetting::ProxyJump)
    ));
    assert!(matches!(
        SshSetting::from_str("localforward"),
        Some(SshSetting::LocalForward)
    ));
    assert!(matches!(
        SshSetting::from_str("identityfile"),
        Some(SshSetting::Identityfile)
    ));
    assert!(matches!(SshSetting::from_str("user"), Some(SshSetting::User)));
    assert!(SshSetting::from_str("frobnicate").is_none());
    assert!(SshSetting::from_str("").is_none());
}

#[test]
fn parse_into_collection_has_empty_cursor() {
    let conf = match SshConf::parse("Host a\n") {
        Ok(c) => c,
        Err(_) => panic!("expected a successful parse"),
    };
    assert_eq!(conf.confs.len(), 1);
    assert!(conf.state.is_none());
}

#[test]
fn serialize_one_host_exact_text() {
    let hosts = vec![Host {
        host_id: "a".to_string(),
        host_name: Some("x".to_string()),
        port: Some(22),
        user: None,
        proxy_jump: None,
        local_forward: None,
        id_file: None,
        expanded: false,
    }];
    assert_eq!(to_config_text(&hosts), "Host a\nhostname x\nport 22\n");
}

#[test]
fn round_trip_preserves_fields_and_order() {
    let text = "Host alpha\n    HostName 10.0.0.1\n    Port 2222\nHost beta\n    User root\n    IdentityFile ~/.ssh/id_ed25519\n";
    let first = parse_ok(text);
    let serialized = to_config_text(&first);
    let second = parse_ok(&serialized);
    assert_eq!(first.len(), second.len());
    for (a, b) in first.iter().zip(second.iter()) {
        assert_eq!(a.host_id, b.host_id);
        assert_eq!(a.host_name, b.host_name);
        assert_eq!(a.port, b.port);
        assert_eq!(a.user, b.user);
        assert_eq!(a.proxy_jump, b.proxy_jump);
        assert_eq!(a.local_forward, b.local_forward);
        assert_eq!(a.id_file, b.id_file);
        assert!(!b.expanded);
    }
}

#[test]
fn round_trip_of_empty_list_is_empty() {
    let hosts: Vec<Host> = Vec::new();
    let serialized = to_config_text(&hosts);
    assert_eq!(serialized, "");
    assert_eq!(parse_ok(&serialized).len(), 0);
}
