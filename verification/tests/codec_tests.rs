use daemon_bridge::codec::{
    close_session_command, decode_event, dial_command, encode_command, list_sessions_command,
    send_message_command, shutdown_command, start_server_command, DaemonCommand,
};
use daemon_bridge::errors::DaemonError;
use daemon_bridge::json::{encode_json, parse_json, Json};

fn chars(s: &str) -> Vec<char> {
    s.chars().collect()
}

fn text(v: &[char]) -> String {
    v.iter().collect()
}

fn dial_params() -> Json {
    Json::Obj(vec![(chars("addr"), Json::Str(chars("127.0.0.1:9000")))])
}

#[test]
fn test_daemon_command_serialization() {
    let cmd = DaemonCommand::new(chars("dial"), dial_params());
    let json = text(&encode_command(&cmd));
    assert!(json.contains("\"type\":\"cmd\""));
    assert!(json.contains("\"cmd\":\"dial\""));
}

#[test]
fn test_daemon_event_deserialization() {
    let json = chars(r#"{"type":"evt","evt":"ready","data":{"version":"1.0.0"}}"#);
    let event = decode_event(&json).unwrap();
    assert_eq!(text(&event.msg_type), "evt");
    assert_eq!(text(&event.evt), "ready");
}

#[test]
fn encode_command_exact_line() {
    let cmd = DaemonCommand::with_id(chars("dial"), chars("abc"), dial_params());
    let line = text(&encode_command(&cmd));
    assert_eq!(
        line,
        r#"{"type":"cmd","cmd":"dial","id":"abc","params":{"addr":"127.0.0.1:9000"}}"#
    );
}

#[test]
fn command_round_trip_keeps_id() {
    let cmd = DaemonCommand::with_id(chars("dial"), chars("abc"), dial_params());
    let line = encode_command(&cmd);
    let event = decode_event(&line).unwrap();
    assert_eq!(event.id.as_deref().map(text), Some("abc".to_string()));
    assert_eq!(text(&event.evt), "dial");
    assert_eq!(text(&event.msg_type), "cmd");
}

#[test]
fn decode_reply_with_id() {
    let line = chars(r#"{"type":"evt","evt":"dial_result","id":"abc","data":{"ok":true}}"#);
    let event = decode_event(&line).unwrap();
    assert_eq!(event.id.as_deref().map(text), Some("abc".to_string()));
    assert_eq!(text(&event.evt), "dial_result");
    assert_eq!(text(&encode_json(&event.data)), r#"{"ok":true}"#);
}

#[test]
fn decode_push_without_id() {
    let line = chars(r#"{"type":"evt","evt":"peer_joined","data":{"peer":"x"}}"#);
    let event = decode_event(&line).unwrap();
    assert!(event.id.is_none());
    assert_eq!(text(&event.evt), "peer_joined");
}

#[test]
fn decode_null_id_is_absent() {
    let line = chars(r#"{"type":"evt","evt":"tick","id":null,"data":null}"#);
    let event = decode_event(&line).unwrap();
    assert!(event.id.is_none());
}

#[test]
fn decode_rejects_malformed_lines() {
    for bad in [
        "",
        "not json",
        "{\"type\":\"evt\"}",
        "[1,2,3]",
        "{\"type\":\"evt\",\"evt\":\"e\",\"data\":{},\"id\":7}",
        "{\"type\":\"evt\",\"evt\":\"e\",\"data\":{}} trailing",
        "{\"type\":5,\"evt\":\"e\",\"data\":{}}",
    ] {
        assert!(
            matches!(decode_event(&chars(bad)), Err(DaemonError::JsonError)),
            "{bad}"
        );
    }
}

#[test]
fn json_encode_exact_values() {
    let v = Json::Obj(vec![
        (
            chars("a"),
            Json::Arr(vec![
                Json::Num(chars("1")),
                Json::Bool(true),
                Json::Null,
                Json::Str(chars("x\"y")),
            ]),
        ),
        (chars("n"), Json::Num(chars("-2.5e3"))),
    ]);
    assert_eq!(
        text(&encode_json(&v)),
        r#"{"a":[1,true,null,"x\"y"],"n":-2.5e3}"#
    );
}

#[test]
fn json_parse_then_encode_is_identity_on_compact_lines() {
    for s in [
        r#"{"type":"evt","evt":"ready","data":{"version":"1.0.0"}}"#,
        r#"[1,true,null,"x",{"k":[]},{}]"#,
        r#""just a string""#,
        r#"-12.5e-3"#,
        r#"{"nested":{"deep":[{"a":1},{"b":[2,3]}]}}"#,
    ] {
        let parsed = parse_json(&chars(s)).unwrap();
        assert_eq!(text(&encode_json(&parsed)), s);
    }
}

#[test]
fn json_parse_unescapes_strings() {
    let parsed = parse_json(&chars(r#"{"k":"\u0041\n\t\\\"\/"}"#)).unwrap();
    assert_eq!(text(&encode_json(&parsed)), "{\"k\":\"A\\n\\t\\\\\\\"/\"}");
}

#[test]
fn json_parse_rejects_broken_input() {
    for bad in [
        "{",
        "[1,",
        "tru",
        "\"unterminated",
        "{\"a\" 1}",
        "{\"a\":}",
        "[1 2]",
        "\"\\u12\"",
        "\"\\uD800\"",
        "\"\\uDC00\"",
        "\"\\uD83Dx\"",
        "\"\\q\"",
        "{\"a\":1,}",
    ] {
        assert!(parse_json(&chars(bad)).is_none(), "{bad}");
    }
}

#[test]
fn decode_accepts_inter_token_whitespace() {
    let spaced = chars(r#" { "type" : "evt" , "evt" : "e" , "data" : [ 1 , { } ] } "#);
    let event = decode_event(&spaced).unwrap();
    assert_eq!(text(&event.evt), "e");
    assert_eq!(text(&encode_json(&event.data)), "[1,{}]");
}

#[test]
fn parse_decodes_surrogate_pair_escapes() {
    let parsed = parse_json(&chars(r#""\uD83D\uDE00""#)).unwrap();
    match &parsed {
        Json::Str(content) => assert_eq!(text(content), "\u{1F600}"),
        _ => panic!("expected a string"),
    }
}

#[test]
fn parse_enforces_the_number_grammar() {
    for good in ["0", "-0", "10", "-12.5e-3", "0.5", "2E+8", "7e0"] {
        assert!(parse_json(&chars(good)).is_some(), "{good}");
    }
    for bad in ["-", "+1", "01", "1.", ".5", "1e", "1e+", "--1", "0x1", "{\"data\":-}"] {
        assert!(parse_json(&chars(bad)).is_none(), "{bad}");
    }
}

#[test]
fn generated_ids_are_well_formed_and_fresh() {
    let a = DaemonCommand::new(chars("x"), Json::Null);
    let b = DaemonCommand::new(chars("x"), Json::Null);
    for cmd in [&a, &b] {
        assert_eq!(cmd.id.len(), 36);
        assert!(cmd
            .id
            .iter()
            .all(|c| c.is_ascii_hexdigit() || *c == '-'));
    }
    assert_ne!(text(&a.id), text(&b.id));
}

#[test]
fn send_message_command_carries_base64_payload() {
    let cmd = send_message_command(chars("s1"), b"hello".to_vec());
    let line = text(&encode_command(&cmd));
    assert!(line.contains("\"cmd\":\"send_message\""));
    assert!(line.contains("\"session_id\":\"s1\""));
    assert!(line.contains("\"data_base64\":\"aGVsbG8=\""));
}

#[test]
fn builder_commands_have_expected_shapes() {
    let d = dial_command(chars("h:1"), None, None);
    let line = text(&encode_command(&d));
    assert!(line.contains("\"cmd\":\"dial\""));
    assert!(line.contains("\"addr\":\"h:1\""));
    assert!(line.contains("\"storage_path\":\"\""));
    assert!(line.contains("\"db_no_passphrase\":true"));

    let s = start_server_command(chars("0.0.0.0:1"), Some(chars("/tmp/db")), Some(false));
    let line = text(&encode_command(&s));
    assert!(line.contains("\"cmd\":\"start_server\""));
    assert!(line.contains("\"storage_path\":\"/tmp/db\""));
    assert!(line.contains("\"db_no_passphrase\":false"));

    let l = list_sessions_command();
    assert!(text(&encode_command(&l)).contains("\"cmd\":\"list_sessions\",\"id\":"));
    assert!(text(&encode_command(&l)).ends_with("\"params\":{}}"));

    let c = close_session_command(chars("s9"));
    assert!(text(&encode_command(&c)).contains("\"session_id\":\"s9\""));

    let sh = shutdown_command();
    assert!(text(&encode_command(&sh)).contains("\"cmd\":\"shutdown\""));
}
