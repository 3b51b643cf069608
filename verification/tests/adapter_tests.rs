use signal_tui::signal_cli::{CliError, CmdOutcome, SignalCli};

fn ok_out(stdout: &str) -> CmdOutcome {
    CmdOutcome {
        success: true,
        code: Some(0),
        stdout: stdout.to_string(),
        stderr: String::new(),
    }
}

fn cli() -> SignalCli {
    SignalCli::with_bin("signal-cli".to_string())
}

#[test]
fn receive_extracts_envelope_fields() {
    let out = ok_out(
        "{\"envelope\":{\"timestamp\":1000,\"sourceNumber\":\"+15551230000\",\"dataMessage\":{\"message\":\"hi\"}}}",
    );
    let msgs = cli().receive_once(out).unwrap();
    assert_eq!(msgs.len(), 1);
    assert_eq!(msgs[0].conversation_key, "contact:+15551230000");
    assert_eq!(msgs[0].timestamp_ms, Some(1000));
    assert_eq!(msgs[0].body, "hi");
    assert_eq!(msgs[0].source.as_deref(), Some("+15551230000"));
}

#[test]
fn group_info_takes_precedence_over_sender() {
    let out = ok_out(
        "{\"envelope\":{\"timestamp\":1000,\"sourceNumber\":\"+15551230000\",\"dataMessage\":{\"message\":\"hi\",\"groupInfo\":{\"groupId\":\"G1\"}}}}",
    );
    let msgs = cli().receive_once(out).unwrap();
    assert_eq!(msgs.len(), 1);
    assert_eq!(msgs[0].conversation_key, "group:G1");
    assert_eq!(msgs[0].body, "hi");
}

#[test]
fn alternate_group_field_naming_is_accepted() {
    let out = ok_out(
        "{\"envelope\":{\"source\":\"+1\",\"dataMessage\":{\"message\":\"m\",\"groupInfo\":{\"group_id\":\"G2\"}}}}",
    );
    let msgs = cli().receive_once(out).unwrap();
    assert_eq!(msgs[0].conversation_key, "group:G2");
}

#[test]
fn source_falls_back_when_source_number_missing() {
    let out = ok_out("{\"envelope\":{\"source\":\"+2\",\"dataMessage\":{\"message\":\"m\"}}}");
    let msgs = cli().receive_once(out).unwrap();
    assert_eq!(msgs[0].conversation_key, "contact:+2");
}

#[test]
fn unattributable_events_share_one_bucket() {
    let out = ok_out("{\"dataMessage\":{\"message\":\"m\"}}");
    let msgs = cli().receive_once(out).unwrap();
    assert_eq!(msgs[0].conversation_key, "unknown:unknown");
    assert_eq!(msgs[0].source, None);
}

#[test]
fn events_without_text_are_dropped() {
    let out = ok_out(
        "[{\"envelope\":{\"sourceNumber\":\"+1\",\"dataMessage\":{\"message\":\"\"}}},\
          {\"envelope\":{\"sourceNumber\":\"+1\"}},\
          {\"envelope\":{\"sourceNumber\":\"+1\",\"dataMessage\":{\"message\":\"keep\"}}}]",
    );
    let msgs = cli().receive_once(out).unwrap();
    assert_eq!(msgs.len(), 1);
    assert_eq!(msgs[0].body, "keep");
}

#[test]
fn line_delimited_output_is_gathered_in_order() {
    let out = ok_out(
        "{\"envelope\":{\"sourceNumber\":\"+1\",\"dataMessage\":{\"message\":\"one\"}}}\n\
         {\"envelope\":{\"sourceNumber\":\"+2\",\"dataMessage\":{\"message\":\"two\"}}}\n",
    );
    let msgs = cli().receive_once(out).unwrap();
    assert_eq!(msgs.len(), 2);
    assert_eq!(msgs[0].body, "one");
    assert_eq!(msgs[1].body, "two");
}

#[test]
fn empty_output_is_an_empty_batch() {
    let msgs = cli().receive_once(ok_out("")).unwrap();
    assert_eq!(msgs.len(), 0);
    let msgs2 = cli().receive_once(ok_out("  \n ")).unwrap();
    assert_eq!(msgs2.len(), 0);
}

#[test]
fn undecodable_output_is_a_parse_error_with_the_line() {
    let r = cli().receive_once(ok_out("{\"a\": 1}\nnot json at all\n"));
    match r {
        Err(CliError::Parse { line }) => assert_eq!(line, "not json at all"),
        _ => panic!("expected a parse error"),
    }
}

#[test]
fn failed_invocation_is_a_process_error() {
    let out = CmdOutcome {
        success: false,
        code: Some(2),
        stdout: "o".to_string(),
        stderr: "bad".to_string(),
    };
    match cli().receive_once(out) {
        Err(CliError::Process { code, stderr, stdout }) => {
            assert_eq!(code, Some(2));
            assert_eq!(stderr, "bad");
            assert_eq!(stdout, "o");
        },
        _ => panic!("expected a process error"),
    }
}

#[test]
fn list_accounts_reads_numbers() {
    let out = ok_out("[{\"number\":\"+15551230000\"},{\"number\":\"+2\"}]");
    let ns = cli().list_accounts(out).unwrap();
    assert_eq!(ns, vec!["+15551230000".to_string(), "+2".to_string()]);
}

#[test]
fn list_contacts_drops_entries_without_number_and_blank_names() {
    let out = ok_out(
        "[{\"number\":\"+1\",\"name\":\" Ada \"},{\"name\":\"ghost\"},{\"number\":\"+2\",\"name\":\"  \"}]",
    );
    let cs = cli().list_contacts(out).unwrap();
    assert_eq!(cs.len(), 2);
    assert_eq!(cs[0].number, "+1");
    assert_eq!(cs[0].name.as_deref(), Some("Ada"));
    assert_eq!(cs[1].number, "+2");
    assert_eq!(cs[1].name, None);
}

#[test]
fn list_groups_accepts_id_fallbacks_and_skips_idless_entries() {
    let out = ok_out(
        "[{\"id\":\"A\"},{\"groupId\":\"B\",\"name\":\"Crew\"},{\"group_id\":\"C\"},{\"name\":\"no id\"},42]",
    );
    let gs = cli().list_groups(out).unwrap();
    assert_eq!(gs.len(), 3);
    assert_eq!(gs[0].id, "A");
    assert_eq!(gs[1].id, "B");
    assert_eq!(gs[1].name.as_deref(), Some("Crew"));
    assert_eq!(gs[2].id, "C");
}

#[test]
fn list_groups_rejects_non_array_output() {
    match cli().list_groups(ok_out("{\"id\":\"A\"}")) {
        Err(CliError::Shape {}) => {},
        _ => panic!("expected a shape error"),
    }
}

#[test]
fn receive_args_render_the_timeout_in_decimal() {
    let c = cli();
    let args = c.receive_args("+1", 17);
    assert_eq!(args, vec!["-a", "+1", "-o", "json", "receive", "--timeout", "17"]);
    let send = c.send_message_to_number("+1", "+2", "hello");
    assert_eq!(send, vec!["-a", "+1", "send", "-m", "hello", "+2"]);
    let gsend = c.send_message_to_group("+1", "G", "hey");
    assert_eq!(gsend, vec!["-a", "+1", "send", "-g", "G", "-m", "hey"]);
}

#[test]
fn display_names_are_trimmed_of_unicode_whitespace() {
    let out = ok_out("[{\"number\":\"+1\",\"name\":\"\u{a0}Ada\u{a0}\"}]");
    let cs = cli().list_contacts(out).unwrap();
    assert_eq!(cs[0].name.as_deref(), Some("Ada"));
}
