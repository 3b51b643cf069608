use signal_tui::scrollback::{append, hex_encode, load_tail, path_for, ScrollbackRecord};

fn rec(ts: Option<i64>, dir: &str, who: Option<&str>, body: &str) -> ScrollbackRecord {
    ScrollbackRecord {
        ts_ms: ts,
        dir: dir.to_string(),
        who: who.map(|w| w.to_string()),
        body: body.to_string(),
    }
}

fn file_of(recs: &[ScrollbackRecord]) -> String {
    let mut out = String::new();
    for r in recs {
        out.push_str(&append(r));
        out.push('\n');
    }
    out
}

#[test]
fn append_renders_fixed_shape() {
    let line = append(&rec(Some(1000), "in", Some("+15551230000"), "hi"));
    assert_eq!(
        line,
        "{\"ts_ms\":1000,\"dir\":\"in\",\"who\":\"+15551230000\",\"body\":\"hi\"}"
    );
    let line2 = append(&rec(None, "out", None, "x"));
    assert_eq!(line2, "{\"ts_ms\":null,\"dir\":\"out\",\"who\":null,\"body\":\"x\"}");
}

#[test]
fn tail_load_returns_last_records_in_write_order() {
    let recs = vec![
        rec(Some(1), "in", Some("a"), "one"),
        rec(Some(2), "out", None, "two"),
        rec(Some(3), "in", Some("c"), "three"),
    ];
    let content = file_of(&recs);
    let all = load_tail(&content, 10);
    assert_eq!(all.len(), 3);
    assert_eq!(all[0].body, "one");
    assert_eq!(all[1].body, "two");
    assert_eq!(all[2].body, "three");

    let tail = load_tail(&content, 2);
    assert_eq!(tail.len(), 2);
    assert_eq!(tail[0].body, "two");
    assert_eq!(tail[1].body, "three");
    assert_eq!(tail[0].ts_ms, Some(2));
    assert_eq!(tail[1].who.as_deref(), Some("c"));
}

#[test]
fn tail_load_skips_invalid_lines_and_keeps_order() {
    let a = append(&rec(Some(1), "in", None, "first"));
    let b = append(&rec(None, "out", Some("me"), "second"));
    let content = format!("{a}\nthis is not json\n\n{{\"broken\": \n{b}\n{{\"dir\":3}}\n");
    let got = load_tail(&content, 10);
    assert_eq!(got.len(), 2);
    assert_eq!(got[0].body, "first");
    assert_eq!(got[1].body, "second");
}

#[test]
fn round_trip_keeps_special_characters() {
    let body = "quote \" backslash \\ newline \n tab \t unicode \u{1F600} end";
    let r = rec(Some(-42), "in", Some("wh\"o"), body);
    let content = format!("{}\n", append(&r));
    let got = load_tail(&content, 5);
    assert_eq!(got.len(), 1);
    assert_eq!(got[0].ts_ms, Some(-42));
    assert_eq!(got[0].dir, "in");
    assert_eq!(got[0].who.as_deref(), Some("wh\"o"));
    assert_eq!(got[0].body, body);
}

#[test]
fn tail_load_tolerates_unknown_and_missing_fields() {
    // Older or newer lines: unknown fields are ignored, missing optional
    // fields read as absent; a line missing `body` is skipped.
    let content = "{\"dir\":\"in\",\"body\":\"a\",\"extra\":[1,2,{\"x\":null}]}\n\
                   {\"ts_ms\":7,\"dir\":\"out\",\"who\":null,\"body\":\"b\",\"flag\":true}\n\
                   {\"ts_ms\":1,\"dir\":\"in\"}\n";
    let got = load_tail(content, 10);
    assert_eq!(got.len(), 2);
    assert_eq!(got[0].body, "a");
    assert_eq!(got[0].ts_ms, None);
    assert_eq!(got[1].ts_ms, Some(7));
    assert_eq!(got[1].who, None);
}

#[test]
fn blank_content_loads_nothing() {
    assert_eq!(load_tail("", 10).len(), 0);
    assert_eq!(load_tail("\n  \n\t\n", 10).len(), 0);
}

#[test]
fn hex_encoding_is_deterministic_and_lowercase() {
    assert_eq!(hex_encode(b"\x00\x0f\xff"), "000fff");
    assert_eq!(hex_encode("contact:+1".as_bytes()), "636f6e746163743a2b31");
}

#[test]
fn path_names_are_hex_with_suffix() {
    assert_eq!(path_for("contact:+1"), "636f6e746163743a2b31.jsonl");
    assert_eq!(path_for(""), ".jsonl");
}

#[test]
fn tail_limit_equal_to_count_keeps_everything() {
    let recs = vec![
        rec(None, "in", None, "a"),
        rec(None, "in", None, "b"),
        rec(None, "in", None, "c"),
    ];
    let got = load_tail(&file_of(&recs), 3);
    assert_eq!(got.len(), 3);
    assert_eq!(got[0].body, "a");
    assert_eq!(got[2].body, "c");
}

#[test]
fn carriage_returns_are_tolerated() {
    let a = append(&rec(Some(1), "in", None, "one"));
    let b = append(&rec(Some(2), "in", None, "two"));
    let content = format!("{a}\r\n{b}\r\n");
    let got = load_tail(&content, 10);
    assert_eq!(got.len(), 2);
    assert_eq!(got[0].body, "one");
    assert_eq!(got[1].body, "two");
}
