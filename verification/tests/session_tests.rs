use signal_tui::config::{expand_path, Config};
use signal_tui::session::{App, InputEvent, Mode, MsgDir, Target, TargetKind};
use signal_tui::signal_cli::IncomingMessage;
use signal_tui::session::Action;
use signal_tui::session::validate_recipient;

fn app() -> App {
    App::new_session("+me".to_string(), true, false, "ready".to_string())
}

fn msg(key: &str, src: Option<&str>, ts: Option<i64>, body: &str) -> IncomingMessage {
    IncomingMessage {
        conversation_key: key.to_string(),
        source: src.map(|s| s.to_string()),
        timestamp_ms: ts,
        body: body.to_string(),
    }
}

fn unread_of(a: &App, key: &str) -> usize {
    a.unread
        .iter()
        .find(|(k, _)| k == key)
        .map(|(_, n)| *n)
        .unwrap_or(0)
}

fn buffer_len(a: &App, key: &str) -> usize {
    a.messages
        .iter()
        .find(|(k, _)| k == key)
        .map(|(_, v)| v.len())
        .unwrap_or(0)
}

#[test]
fn batch_for_unknown_key_creates_one_target() {
    let mut a = app();
    let batch = vec![
        msg("contact:+1555", Some("+1555"), Some(1), "a"),
        msg("contact:+1555", Some("+1555"), Some(2), "b"),
        msg("contact:+1555", Some("+1555"), Some(3), "c"),
    ];
    let (lines, _notes) = a.ingest_incoming(batch);
    assert_eq!(a.targets.len(), 1);
    assert_eq!(a.targets[0].conversation_key, "contact:+1555");
    assert_eq!(a.targets[0].addr, "+1555");
    assert_eq!(buffer_len(&a, "contact:+1555"), 3);
    assert_eq!(lines.len(), 3);
    assert_eq!(lines[0].0, "contact:+1555");
}

#[test]
fn unparseable_keys_are_dropped_entirely() {
    let mut a = app();
    let (lines, _) = a.ingest_incoming(vec![msg("unknown:unknown", None, None, "mystery")]);
    assert_eq!(a.targets.len(), 0);
    assert_eq!(a.unread.len(), 0);
    assert_eq!(buffer_len(&a, "unknown:unknown"), 0);
    assert_eq!(lines.len(), 0);
}

#[test]
fn group_keys_synthesize_group_targets() {
    let mut a = app();
    a.ingest_incoming(vec![msg("group:G1", Some("+9"), Some(5), "yo")]);
    assert_eq!(a.targets.len(), 1);
    assert_eq!(a.targets[0].kind, TargetKind::Group);
    assert_eq!(a.targets[0].addr, "G1");
    assert_eq!(a.targets[0].display, "group G1");
}

#[test]
fn selecting_a_conversation_clears_only_its_unread_count() {
    let mut a = app();
    // First message creates and selects-adjacent state: selected stays 0.
    a.ingest_incoming(vec![msg("contact:+a", Some("+a"), None, "x")]);
    // The selected conversation is now contact:+a (index 0, sole target).
    a.ingest_incoming(vec![
        msg("contact:+b", Some("+b"), None, "1"),
        msg("contact:+b", Some("+b"), None, "2"),
        msg("contact:+c", Some("+c"), None, "3"),
    ]);
    // +b and +c are unread; sorted order is +a, +b, +c.
    assert_eq!(unread_of(&a, "contact:+b"), 2);
    assert_eq!(unread_of(&a, "contact:+c"), 1);
    // Move selection down onto +b: its counter clears, +c's does not.
    let _ = a.handle_event(InputEvent::Down);
    assert_eq!(a.targets[a.selected].conversation_key, "contact:+b");
    assert_eq!(unread_of(&a, "contact:+b"), 0);
    assert_eq!(unread_of(&a, "contact:+c"), 1);
}

#[test]
fn messages_for_the_selected_conversation_are_not_counted_unread() {
    let mut a = app();
    a.ingest_incoming(vec![msg("contact:+a", Some("+a"), None, "x")]);
    assert_eq!(unread_of(&a, "contact:+a"), 1);
    let _ = a.handle_event(InputEvent::Down);
    assert_eq!(unread_of(&a, "contact:+a"), 0);
    // Selected is +a now; another message for it stays read.
    a.ingest_incoming(vec![msg("contact:+a", Some("+a"), None, "y")]);
    assert_eq!(unread_of(&a, "contact:+a"), 0);
    assert_eq!(buffer_len(&a, "contact:+a"), 2);
}

#[test]
fn failed_send_changes_nothing_but_the_status() {
    let mut a = app();
    a.ingest_incoming(vec![msg("contact:+a", Some("+a"), Some(1), "hello")]);
    let before_msgs: Vec<(String, Vec<String>)> = a
        .messages
        .iter()
        .map(|(k, v)| (k.clone(), v.iter().map(|m| m.body.clone()).collect()))
        .collect();
    let before_unread = a.unread.clone();
    let before_targets: Vec<String> = a.targets.iter().map(|t| t.conversation_key.clone()).collect();
    a.send_failed("send error: tool exited with 1".to_string());
    let after_msgs: Vec<(String, Vec<String>)> = a
        .messages
        .iter()
        .map(|(k, v)| (k.clone(), v.iter().map(|m| m.body.clone()).collect()))
        .collect();
    assert_eq!(before_msgs, after_msgs);
    assert_eq!(before_unread, a.unread);
    assert_eq!(
        before_targets,
        a.targets.iter().map(|t| t.conversation_key.clone()).collect::<Vec<_>>()
    );
    assert_eq!(a.status, "send error: tool exited with 1");
}

#[test]
fn successful_send_appends_outbound_message_and_line() {
    let mut a = app();
    a.ingest_incoming(vec![msg("contact:+a", Some("+a"), Some(1), "in!")]);
    a.mode = Mode::Insert;
    let line = a.send_succeeded("contact:+a", "reply");
    assert_eq!(a.mode, Mode::Normal);
    assert_eq!(a.status, "sent");
    assert_eq!(buffer_len(&a, "contact:+a"), 2);
    let (_, buf) = a.messages.iter().find(|(k, _)| k == "contact:+a").unwrap();
    assert_eq!(buf[1].dir, MsgDir::Out);
    assert_eq!(buf[1].body, "reply");
    assert_eq!(buf[1].who.as_deref(), Some("+me"));
    assert_eq!(buf[1].ts_ms, None);
    let (key, text) = line.unwrap();
    assert_eq!(key, "contact:+a");
    assert_eq!(text, "{\"ts_ms\":null,\"dir\":\"out\",\"who\":\"+me\",\"body\":\"reply\"}");
}

#[test]
fn composing_enter_yields_a_send_action() {
    let mut a = app();
    a.ingest_incoming(vec![msg("contact:+a", Some("+a"), None, "x")]);
    let _ = a.handle_event(InputEvent::Char('i'));
    assert_eq!(a.mode, Mode::Insert);
    for c in "  hello there  ".chars() {
        let _ = a.handle_event(InputEvent::Char(c));
    }
    match a.handle_event(InputEvent::Enter) {
        Action::Send { kind, addr, conversation_key, body } => {
            assert_eq!(kind, TargetKind::Contact);
            assert_eq!(addr, "+a");
            assert_eq!(conversation_key, "contact:+a");
            assert_eq!(body, "hello there");
        },
        _ => panic!("expected a send action"),
    }
}

#[test]
fn empty_compose_sends_nothing() {
    let mut a = app();
    a.ingest_incoming(vec![msg("contact:+a", Some("+a"), None, "x")]);
    let _ = a.handle_event(InputEvent::Char('i'));
    let _ = a.handle_event(InputEvent::Char(' '));
    match a.handle_event(InputEvent::Enter) {
        Action::Nothing => {},
        _ => panic!("expected no action"),
    }
    assert_eq!(a.status, "empty message; nothing sent");
    assert_eq!(a.mode, Mode::Insert);
}

#[test]
fn recipient_validation_requires_a_plus_and_length() {
    assert!(!validate_recipient("5551234567"));
    assert!(validate_recipient("+15551234567"));
    assert!(!validate_recipient("+1"));
    assert!(!validate_recipient(""));
}

#[test]
fn adding_a_recipient_inserts_selects_and_marks_read() {
    let mut a = app();
    let _ = a.handle_event(InputEvent::Char('a'));
    assert_eq!(a.mode, Mode::AddRecipient);
    for c in "+15551234567".chars() {
        let _ = a.handle_event(InputEvent::Char(c));
    }
    let _ = a.handle_event(InputEvent::Enter);
    assert_eq!(a.mode, Mode::Normal);
    assert_eq!(a.targets.len(), 1);
    assert_eq!(a.targets[0].conversation_key, "contact:+15551234567");
    assert_eq!(a.targets[a.selected].addr, "+15551234567");
    assert_eq!(a.status, "recipient added (press 'i' to message)");
}

#[test]
fn invalid_recipient_is_rejected_without_state_change() {
    let mut a = app();
    let _ = a.handle_event(InputEvent::Char('a'));
    for c in "5551234567".chars() {
        let _ = a.handle_event(InputEvent::Char(c));
    }
    let _ = a.handle_event(InputEvent::Enter);
    assert_eq!(a.targets.len(), 0);
    assert_eq!(a.mode, Mode::AddRecipient);
    assert_eq!(a.status, "recipient must look like +15551234567");
}

#[test]
fn targets_sort_case_insensitively() {
    let mut a = app();
    a.targets.push(Target {
        conversation_key: "contact:+1".to_string(),
        kind: TargetKind::Contact,
        addr: "+1".to_string(),
        display: "Bob".to_string(),
    });
    a.targets.push(Target {
        conversation_key: "contact:+2".to_string(),
        kind: TargetKind::Contact,
        addr: "+2".to_string(),
        display: "alice".to_string(),
    });
    a.ingest_incoming(Vec::new());
    // Case-sensitive byte order would put "Bob" first; the
    // case-insensitive order puts "alice" first.
    assert_eq!(a.targets[0].display, "alice");
    assert_eq!(a.targets[1].display, "Bob");
}

#[test]
fn notifications_carry_truncated_bodies() {
    let mut a = App::new_session("+me".to_string(), false, true, String::new());
    let long = "x".repeat(250);
    let (_, notes) = a.ingest_incoming(vec![msg("contact:+a", Some("+a"), None, &long)]);
    assert_eq!(notes.len(), 1);
    assert_eq!(notes[0].0, "+a");
    assert_eq!(notes[0].1, "+a");
    assert_eq!(notes[0].2.len(), 203);
    assert!(notes[0].2.ends_with("..."));
}

#[test]
fn initial_scrollback_fills_buffers_in_order() {
    let file = "{\"ts_ms\":1,\"dir\":\"in\",\"who\":\"+a\",\"body\":\"old\"}\n\
                {\"ts_ms\":2,\"dir\":\"out\",\"who\":\"+me\",\"body\":\"mine\"}\n";
    let mut b = app();
    b.load_initial_scrollback(&vec![("contact:+a".to_string(), file.to_string())], 500);
    assert_eq!(buffer_len(&b, "contact:+a"), 2);
    let (_, buf) = b.messages.iter().find(|(k, _)| k == "contact:+a").unwrap();
    assert_eq!(buf[0].body, "old");
    assert_eq!(buf[0].dir, MsgDir::In);
    assert_eq!(buf[1].dir, MsgDir::Out);
}

#[test]
fn config_resolution_applies_defaults_and_clamp() {
    let c = Config::resolve("/tmp/s".to_string(), None, None, None);
    assert_eq!(c.scrollback_load_limit, 500);
    assert!(c.save_scrollback);
    assert!(c.notify);
    let c2 = Config::resolve("/tmp/s".to_string(), Some(5), Some(false), Some(false));
    assert_eq!(c2.scrollback_load_limit, 50);
    assert!(!c2.save_scrollback);
    let c3 = Config::resolve("/tmp/s".to_string(), Some(500000), None, None);
    assert_eq!(c3.scrollback_load_limit, 100000);
}

#[test]
fn path_expansion_trims_and_expands_home() {
    assert_eq!(expand_path(" ~/state ", "/home/u").unwrap(), "/home/u/state");
    assert_eq!(expand_path("/abs/path", "/home/u").unwrap(), "/abs/path");
    assert!(expand_path("   ", "/home/u").is_err());
}

#[test]
fn confirming_an_existing_recipient_reuses_selects_and_marks_read() {
    let mut a = app();
    // Two conversations; the recipient's gathers an unread count while
    // the other one is selected ("+a" sorts first and stays selected).
    a.ingest_incoming(vec![msg("contact:+z9999999", Some("+z9999999"), None, "hi")]);
    a.ingest_incoming(vec![msg("contact:+a", Some("+a"), None, "yo")]);
    assert_eq!(a.targets[a.selected].addr, "+a");
    assert!(unread_of(&a, "contact:+z9999999") > 0);
    // Confirm the recipient that already exists.
    let _ = a.handle_event(InputEvent::Char('a'));
    for c in "+z9999999".chars() {
        let _ = a.handle_event(InputEvent::Char(c));
    }
    let _ = a.handle_event(InputEvent::Enter);
    assert_eq!(a.targets.len(), 2);
    assert_eq!(a.targets[a.selected].addr, "+z9999999");
    assert_eq!(unread_of(&a, "contact:+z9999999"), 0);
    assert_eq!(a.mode, Mode::Normal);
    assert!(a.input.is_empty());
}

#[test]
fn input_trimming_is_unicode_aware() {
    // A no-break space around the address is trimmed away, as str::trim
    // would do.
    let mut a = app();
    let _ = a.handle_event(InputEvent::Char('a'));
    for c in "\u{a0}+15551234567\u{a0}".chars() {
        let _ = a.handle_event(InputEvent::Char(c));
    }
    let _ = a.handle_event(InputEvent::Enter);
    assert_eq!(a.mode, Mode::Normal);
    assert_eq!(a.targets.len(), 1);
    assert_eq!(a.targets[0].addr, "+15551234567");
}
