use sshpick::host::{new_host, Host};
use sshpick::model::{InputEvent, Outcome, SshConf};

fn three_hosts() -> SshConf {
    let hosts: Vec<Host> = vec![
        new_host("one".to_string()),
        new_host("two".to_string()),
        new_host("three".to_string()),
    ];
    SshConf::from_hosts(hosts)
}

#[test]
fn select_next_converges_to_last() {
    let mut conf = three_hosts();
    conf.select_next();
    assert_eq!(conf.state, Some(0));
    for _ in 0..5 {
        conf.select_next();
    }
    assert_eq!(conf.state, Some(2));
    conf.select_next();
    assert_eq!(conf.state, Some(2));
}

#[test]
fn select_previous_converges_to_first() {
    let mut conf = three_hosts();
    conf.select_previous();
    assert_eq!(conf.state, Some(2));
    for _ in 0..5 {
        conf.select_previous();
    }
    assert_eq!(conf.state, Some(0));
    conf.select_previous();
    assert_eq!(conf.state, Some(0));
}

#[test]
fn navigation_is_a_noop_on_empty_list() {
    let mut conf = SshConf::new();
    conf.select_next();
    assert_eq!(conf.state, None);
    conf.select_previous();
    assert_eq!(conf.state, None);
    conf.select_first();
    assert_eq!(conf.state, None);
    conf.select_last();
    assert_eq!(conf.state, None);
}

#[test]
fn first_and_last_jump() {
    let mut conf = three_hosts();
    conf.select_last();
    assert_eq!(conf.state, Some(2));
    conf.select_first();
    assert_eq!(conf.state, Some(0));
}

#[test]
fn clear_selection_resets_cursor() {
    let mut conf = three_hosts();
    conf.select_next();
    assert_eq!(conf.state, Some(0));
    conf.clear_selection();
    assert_eq!(conf.state, None);
}

#[test]
fn toggle_twice_restores_expand_flag() {
    let mut conf = three_hosts();
    conf.select_next();
    conf.select_next();
    assert_eq!(conf.state, Some(1));
    assert!(!conf.confs[1].expanded);
    conf.toggle_expand();
    assert!(conf.confs[1].expanded);
    assert!(!conf.confs[0].expanded);
    assert!(!conf.confs[2].expanded);
    conf.toggle_expand();
    assert!(!conf.confs[1].expanded);
}

#[test]
fn toggle_without_cursor_is_a_noop() {
    let mut conf = three_hosts();
    conf.toggle_expand();
    assert!(!conf.confs[0].expanded && !conf.confs[1].expanded && !conf.confs[2].expanded);
}

#[test]
fn confirm_without_cursor_yields_nothing() {
    let conf = three_hosts();
    assert!(conf.confirm().is_none());
}

#[test]
fn confirm_with_cursor_yields_host_id() {
    let mut conf = three_hosts();
    conf.select_next();
    conf.select_next();
    assert_eq!(conf.confirm().as_deref(), Some("two"));
}

#[test]
fn quit_keys_abort() {
    let mut conf = three_hosts();
    assert!(matches!(conf.handle_key(InputEvent::Char('q')), Outcome::Quit));
    assert!(matches!(conf.handle_key(InputEvent::Esc), Outcome::Quit));
}

#[test]
fn navigation_keys_move_cursor_and_continue() {
    let mut conf = three_hosts();
    assert!(matches!(conf.handle_key(InputEvent::Char('j')), Outcome::Continue));
    assert_eq!(conf.state, Some(0));
    assert!(matches!(conf.handle_key(InputEvent::Down), Outcome::Continue));
    assert_eq!(conf.state, Some(1));
    assert!(matches!(conf.handle_key(InputEvent::Char('k')), Outcome::Continue));
    assert_eq!(conf.state, Some(0));
    assert!(matches!(conf.handle_key(InputEvent::End), Outcome::Continue));
    assert_eq!(conf.state, Some(2));
    assert!(matches!(conf.handle_key(InputEvent::Char('g')), Outcome::Continue));
    assert_eq!(conf.state, Some(0));
    assert!(matches!(conf.handle_key(InputEvent::Char('h')), Outcome::Continue));
    assert_eq!(conf.state, None);
}

#[test]
fn toggle_key_flips_row_under_cursor() {
    let mut conf = three_hosts();
    conf.handle_key(InputEvent::Char('j'));
    assert!(matches!(conf.handle_key(InputEvent::Char('l')), Outcome::Continue));
    assert!(conf.confs[0].expanded);
    assert!(matches!(conf.handle_key(InputEvent::Right), Outcome::Continue));
    assert!(!conf.confs[0].expanded);
}

#[test]
fn enter_with_cursor_chooses() {
    let mut conf = three_hosts();
    conf.handle_key(InputEvent::Char('j'));
    match conf.handle_key(InputEvent::Enter) {
        Outcome::Chosen(id) => assert_eq!(id, "one"),
        _ => panic!("expected a chosen identifier"),
    }
}

#[test]
fn enter_without_cursor_is_no_selection() {
    let mut conf = three_hosts();
    assert!(matches!(conf.handle_key(InputEvent::Enter), Outcome::NoSelection));
}

#[test]
fn unmapped_keys_change_nothing() {
    let mut conf = three_hosts();
    conf.handle_key(InputEvent::Char('j'));
    assert!(matches!(conf.handle_key(InputEvent::Char('x')), Outcome::Continue));
    assert!(matches!(conf.handle_key(InputEvent::Other), Outcome::Continue));
    assert_eq!(conf.state, Some(0));
    assert!(!conf.confs[0].expanded);
}
