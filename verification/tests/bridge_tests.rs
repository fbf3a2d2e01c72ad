use daemon_bridge::bridge::{CommandResponse, DaemonBridge, LineAction};
use daemon_bridge::codec::DaemonCommand;
use daemon_bridge::correlator::PendingTable;
use daemon_bridge::discovery::{
    arch_binary_name, binary_name, find_daemon_binary, get_binary_candidates, HostArch, HostOs,
};
use daemon_bridge::errors::DaemonError;
use daemon_bridge::json::Json;

fn chars(s: &str) -> Vec<char> {
    s.chars().collect()
}

fn text(v: &[char]) -> String {
    v.iter().collect()
}

fn started_bridge() -> DaemonBridge<u32> {
    let mut b = DaemonBridge::new();
    b.spawn().unwrap();
    b
}

fn awaited(b: &mut DaemonBridge<u32>, id: &str, chan: u32) -> Vec<char> {
    let cmd = DaemonCommand::with_id(chars("dial"), chars(id), Json::Obj(Vec::new()));
    b.begin_await(&cmd, chan).map_err(|(e, _)| e).unwrap()
}

#[test]
fn spawn_twice_fails_with_already_running() {
    let mut b: DaemonBridge<u32> = DaemonBridge::new();
    assert!(b.spawn().is_ok());
    assert_eq!(b.spawn(), Err(DaemonError::AlreadyRunning));
    assert!(b.status());
}

#[test]
fn send_requires_running_child() {
    let b: DaemonBridge<u32> = DaemonBridge::new();
    let cmd = DaemonCommand::with_id(chars("dial"), chars("a"), Json::Null);
    assert_eq!(b.send_command(&cmd), Err(DaemonError::NotRunning));
}

#[test]
fn begin_await_requires_running_child() {
    let mut b: DaemonBridge<u32> = DaemonBridge::new();
    let cmd = DaemonCommand::with_id(chars("dial"), chars("a"), Json::Null);
    match b.begin_await(&cmd, 1) {
        Err((DaemonError::NotRunning, 1)) => {}
        _ => panic!("unexpected outcome"),
    }
}

#[test]
fn begin_await_rejects_duplicate_id() {
    let mut b = started_bridge();
    awaited(&mut b, "abc", 1);
    let cmd = DaemonCommand::with_id(chars("dial"), chars("abc"), Json::Null);
    match b.begin_await(&cmd, 2) {
        Err((DaemonError::SendError, 2)) => {}
        _ => panic!("unexpected outcome"),
    }
    assert_eq!(b.pending.len(), 1);
}

#[test]
fn reply_resolves_matching_await() {
    let mut b = started_bridge();
    let line = awaited(&mut b, "abc", 7);
    assert_eq!(
        text(&line),
        r#"{"type":"cmd","cmd":"dial","id":"abc","params":{}}"#
    );
    let reply = chars(r#"{"type":"evt","evt":"dial_result","id":"abc","data":{"ok":true}}"#);
    match b.handle_stdout_line(&reply) {
        LineAction::Deliver(event, Some(7)) => {
            assert_eq!(event.id.as_deref().map(text), Some("abc".to_string()));
            assert_eq!(text(&event.evt), "dial_result");
        }
        _ => panic!("expected a delivered reply"),
    }
    assert_eq!(b.pending.len(), 0);
}

#[test]
fn concurrent_awaits_each_get_their_own_reply() {
    let mut b = started_bridge();
    awaited(&mut b, "id-1", 1);
    awaited(&mut b, "id-2", 2);
    awaited(&mut b, "id-3", 3);
    let reply2 = chars(r#"{"type":"evt","evt":"r","id":"id-2","data":null}"#);
    match b.handle_stdout_line(&reply2) {
        LineAction::Deliver(_, Some(2)) => {}
        _ => panic!("reply for id-2 must reach caller 2"),
    }
    let reply1 = chars(r#"{"type":"evt","evt":"r","id":"id-1","data":null}"#);
    match b.handle_stdout_line(&reply1) {
        LineAction::Deliver(_, Some(1)) => {}
        _ => panic!("reply for id-1 must reach caller 1"),
    }
    assert_eq!(b.pending.len(), 1);
}

#[test]
fn push_event_without_id_reaches_sink_only() {
    let mut b = started_bridge();
    awaited(&mut b, "abc", 7);
    let push = chars(r#"{"type":"evt","evt":"peer_joined","data":{"peer":"x"}}"#);
    match b.handle_stdout_line(&push) {
        LineAction::Deliver(event, None) => {
            assert_eq!(text(&event.evt), "peer_joined");
        }
        _ => panic!("a push notification resolves no await"),
    }
    assert_eq!(b.pending.len(), 1);
}

#[test]
fn unmatched_id_is_push_only_and_no_error() {
    let mut b = started_bridge();
    awaited(&mut b, "abc", 7);
    let push = chars(r#"{"type":"evt","evt":"r","id":"other","data":null}"#);
    match b.handle_stdout_line(&push) {
        LineAction::Deliver(event, None) => {
            assert_eq!(event.id.as_deref().map(text), Some("other".to_string()));
        }
        _ => panic!("an unmatched id resolves no await"),
    }
    assert_eq!(b.pending.len(), 1);
}

#[test]
fn empty_and_malformed_lines_are_skipped() {
    let mut b = started_bridge();
    awaited(&mut b, "abc", 7);
    assert!(matches!(b.handle_stdout_line(&chars("")), LineAction::Skip));
    assert!(matches!(
        b.handle_stdout_line(&chars("not json at all")),
        LineAction::Malformed
    ));
    assert_eq!(b.pending.len(), 1);
}

#[test]
fn empty_id_is_push_only() {
    let mut b = started_bridge();
    awaited(&mut b, "", 7);
    let push = chars(r#"{"type":"evt","evt":"e","id":"","data":null}"#);
    match b.handle_stdout_line(&push) {
        LineAction::Deliver(_, None) => {}
        _ => panic!("an empty id resolves no await"),
    }
    assert_eq!(b.pending.len(), 1);
}

#[test]
fn late_reply_after_timeout_is_dropped() {
    let mut b = started_bridge();
    awaited(&mut b, "abc", 7);
    assert_eq!(b.expire(&chars("abc")), Some(7));
    assert_eq!(b.expire(&chars("abc")), None);
    let late = chars(r#"{"type":"evt","evt":"r","id":"abc","data":null}"#);
    match b.handle_stdout_line(&late) {
        LineAction::Deliver(_, None) => {}
        _ => panic!("a late reply must not reach the caller that gave up"),
    }
}

#[test]
fn stop_fails_every_outstanding_request_exactly_once() {
    let mut b = started_bridge();
    awaited(&mut b, "id-1", 1);
    awaited(&mut b, "id-2", 2);
    awaited(&mut b, "id-3", 3);
    let drained = b.stop();
    assert!(!b.status());
    assert_eq!(b.pending.len(), 0);
    let mut chans: Vec<u32> = drained.iter().map(|e| e.1).collect();
    chans.sort();
    assert_eq!(chans, vec![1, 2, 3]);
    let mut ids: Vec<String> = drained.iter().map(|e| text(&e.0)).collect();
    ids.sort();
    assert_eq!(ids, vec!["id-1", "id-2", "id-3"]);
}

#[test]
fn stop_when_idle_is_a_no_op() {
    let mut b: DaemonBridge<u32> = DaemonBridge::new();
    let drained = b.stop();
    assert!(drained.is_empty());
    assert!(!b.status());
}

#[test]
fn is_running_clears_state_on_observed_exit() {
    let mut b = started_bridge();
    assert!(b.is_running(false));
    assert!(b.status());
    assert!(!b.is_running(true));
    assert!(!b.status());
    assert!(!b.is_running(false));
}

#[test]
fn pending_table_register_and_resolve() {
    let mut t: PendingTable<u32> = PendingTable::new();
    assert!(t.register(chars("a"), 1).is_ok());
    assert_eq!(t.register(chars("a"), 2), Err(2));
    assert!(t.contains(&chars("a")));
    assert_eq!(t.resolve(&chars("missing")), None);
    assert_eq!(t.resolve(&chars("a")), Some(1));
    assert_eq!(t.len(), 0);
}

#[test]
fn binary_names_by_platform() {
    assert_eq!(text(&binary_name(HostOs::Linux)), "daemon");
    assert_eq!(text(&binary_name(HostOs::Windows)), "daemon.exe");
    assert_eq!(
        text(&arch_binary_name(HostOs::Macos, HostArch::Arm64)),
        "daemon-darwin-arm64"
    );
    assert_eq!(
        text(&arch_binary_name(HostOs::Linux, HostArch::Amd64)),
        "daemon-linux-amd64"
    );
    assert_eq!(
        text(&arch_binary_name(HostOs::Windows, HostArch::Amd64)),
        "daemon-windows-amd64.exe"
    );
    assert_eq!(
        text(&arch_binary_name(HostOs::Other, HostArch::Other)),
        "daemon"
    );
}

#[test]
fn candidate_order_prefers_resource_dir() {
    let cands = get_binary_candidates(
        &Some(chars("/res")),
        &Some(chars("/exe")),
        HostOs::Linux,
        HostArch::Amd64,
    );
    let got: Vec<String> = cands.iter().map(|c| text(c)).collect();
    assert_eq!(
        got,
        vec![
            "/res/daemon",
            "/res/daemon-linux-amd64",
            "/res/binaries/daemon",
            "/res/binaries/daemon-linux-amd64",
            "/exe/daemon",
            "/exe/daemon-linux-amd64",
            "daemon",
            "daemon-linux-amd64",
            "../../dist/daemon-linux-amd64",
            "../dist/daemon-linux-amd64",
            "dist/daemon-linux-amd64",
        ]
    );
}

#[test]
fn find_daemon_binary_takes_first_existing() {
    let cands = get_binary_candidates(&None, &None, HostOs::Linux, HostArch::Amd64);
    let mut exists = vec![false; cands.len()];
    exists[2] = true;
    exists[4] = true;
    assert_eq!(find_daemon_binary(&cands, &exists), Ok(2));
    let none = vec![false; cands.len()];
    assert_eq!(
        find_daemon_binary(&cands, &none),
        Err(DaemonError::BinaryNotFound)
    );
}

#[test]
fn command_response_shapes() {
    let ok = CommandResponse::success(Json::Bool(true));
    assert!(ok.success);
    assert!(ok.error.is_none());
    let err = CommandResponse::error(chars("boom"));
    assert!(!err.success);
    assert_eq!(err.error.as_deref().map(text), Some("boom".to_string()));
}
