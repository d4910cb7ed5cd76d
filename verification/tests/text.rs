use sshpick::host::{new_host, Host};
use sshpick::model::SshConf;

fn sample_host() -> Host {
    Host {
        host_id: "a".to_string(),
        host_name: Some("x".to_string()),
        port: Some(22),
        user: None,
        proxy_jump: None,
        local_forward: None,
        id_file: None,
        expanded: false,
    }
}

#[test]
fn host_dump_shows_none_for_absent_fields() {
    let h = sample_host();
    let expected = "host a\n    hostname x\n    port 22\n    user none\n    proxyjump none\n    localforward none\n    identityfile none\n";
    assert_eq!(h.to_text(), expected);
}

#[test]
fn conf_dump_separates_hosts_with_blank_lines() {
    let conf = SshConf::from_hosts(vec![
        new_host("one".to_string()),
        new_host("two".to_string()),
    ]);
    let expected = "host one\n    hostname none\n    port none\n    user none\n    proxyjump none\n    localforward none\n    identityfile none\n\nhost two\n    hostname none\n    port none\n    user none\n    proxyjump none\n    localforward none\n    identityfile none\n\n";
    assert_eq!(conf.to_text(), expected);
}

#[test]
fn summary_details_joins_present_fields() {
    let h = Host {
        host_id: "a".to_string(),
        host_name: Some("h1".to_string()),
        port: Some(22),
        user: Some("u".to_string()),
        proxy_jump: Some("p".to_string()),
        local_forward: None,
        id_file: None,
        expanded: false,
    };
    let expected = "\u{1f5a5}\u{fe0f} h1  \u{1f464} u  \u{1f6aa} 22  \u{2197}\u{fe0f}\u{2197}\u{fe0f}p";
    assert_eq!(h.summary_details(), expected);
}

#[test]
fn summary_details_empty_when_nothing_present() {
    let h = new_host("bare".to_string());
    assert_eq!(h.summary_details(), "");
}

#[test]
fn summary_details_single_field_has_no_separator() {
    let mut h = new_host("a".to_string());
    h.user = Some("root".to_string());
    assert_eq!(h.summary_details(), "\u{1f464} root");
}

#[test]
fn expanded_rows_list_present_fields_in_order() {
    let h = Host {
        host_id: "a".to_string(),
        host_name: Some("h1".to_string()),
        port: Some(2222),
        user: Some("u".to_string()),
        proxy_jump: Some("p".to_string()),
        local_forward: Some("lf".to_string()),
        id_file: Some("idf".to_string()),
        expanded: true,
    };
    let rows = h.expanded_rows();
    assert_eq!(
        rows,
        vec![
            "  HostName h1",
            "  Port 2222",
            "  ProxyJump p",
            "  User u",
            "  LocalForward lf",
            "  IdentityFile idf",
        ]
    );
}

#[test]
fn expanded_rows_omit_absent_fields() {
    let mut h = new_host("a".to_string());
    h.port = Some(7);
    let rows = h.expanded_rows();
    assert_eq!(rows, vec!["  Port 7"]);
}
