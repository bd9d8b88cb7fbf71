use clip_sync::client::{client_step, ClientAction, ClientEvent, ClientPhase};
use clip_sync::config::Config;
use clip_sync::content::{ClipboardContent, ContentError};
use clip_sync::daemon::{ClipboardDaemon, DaemonMode};
use clip_sync::models::{ClipboardContentType, ClipboardSearchQuery};
use clip_sync::monitor::{monitor_step, PollOutcome};
use clip_sync::protocol::Message;

#[test]
fn reconnect_scenario_backs_off_once_per_delay() {
    // The server closes the socket: the client enters backoff with exactly
    // one sleep, stays put until the delay elapses, then makes exactly one
    // fresh connection attempt.
    let (phase, action) = client_step(ClientPhase::Streaming, ClientEvent::Eof, &None);
    assert_eq!(phase, ClientPhase::Backoff);
    matches!(action, ClientAction::Sleep);

    // Events racing in during the delay trigger no connection attempt.
    let (phase, action) = client_step(phase, ClientEvent::HeartbeatTick, &None);
    assert_eq!(phase, ClientPhase::Backoff);
    matches!(action, ClientAction::Idle);
    let (phase, action) = client_step(phase, ClientEvent::Queued(Message::Ping), &None);
    assert_eq!(phase, ClientPhase::Backoff);
    matches!(action, ClientAction::Idle);

    let (phase, action) = client_step(phase, ClientEvent::BackoffElapsed, &None);
    assert_eq!(phase, ClientPhase::Connecting);
    matches!(action, ClientAction::Connect);
}

#[test]
fn connect_failure_also_backs_off() {
    let (phase, action) = client_step(ClientPhase::Connecting, ClientEvent::ConnectFailed, &Some("t".to_string()));
    assert_eq!(phase, ClientPhase::Backoff);
    matches!(action, ClientAction::Sleep);
}

#[test]
fn auth_handshake_paths() {
    let token = Some("sesame".to_string());

    // With a token, a fresh connection first sends the auth request.
    let (phase, action) = client_step(ClientPhase::Connecting, ClientEvent::Connected, &token);
    assert_eq!(phase, ClientPhase::Authenticating);
    match action {
        ClientAction::Send(Message::Auth { token: t }) => assert_eq!(t, "sesame"),
        _ => panic!("connecting with a token must send the auth request"),
    }

    let ok = Message::AuthResponse { success: true, message: "ok".to_string() };
    let (phase, _) = client_step(phase, ClientEvent::Inbound(ok), &token);
    assert_eq!(phase, ClientPhase::Streaming);

    // A rejection aborts the attempt.
    let (phase, _) = client_step(ClientPhase::Connecting, ClientEvent::Connected, &token);
    let no = Message::AuthResponse { success: false, message: "no".to_string() };
    let (phase, action) = client_step(phase, ClientEvent::Inbound(no), &token);
    assert_eq!(phase, ClientPhase::Backoff);
    matches!(action, ClientAction::Sleep);

    // Anything but an auth reply aborts too.
    let (phase, _) = client_step(ClientPhase::Connecting, ClientEvent::Connected, &token);
    let (phase, _) = client_step(phase, ClientEvent::Inbound(Message::Pong), &token);
    assert_eq!(phase, ClientPhase::Backoff);

    // Without a token the client streams at once.
    let (phase, _) = client_step(ClientPhase::Connecting, ClientEvent::Connected, &None);
    assert_eq!(phase, ClientPhase::Streaming);
}

#[test]
fn streaming_pumps_messages() {
    let upd = Message::ClipboardUpdate {
        content_type: "text".to_string(),
        content: "incoming".to_string(),
        timestamp: 7,
        source: "peer".to_string(),
        checksum: "c".to_string(),
    };
    let (phase, action) = client_step(ClientPhase::Streaming, ClientEvent::Inbound(upd), &None);
    assert_eq!(phase, ClientPhase::Streaming);
    match action {
        ClientAction::Apply { content_type, content } => {
            assert_eq!(content_type, "text");
            assert_eq!(content, "incoming");
        }
        _ => panic!("an update must be applied to the clipboard"),
    }

    let (_, action) = client_step(ClientPhase::Streaming, ClientEvent::HeartbeatTick, &None);
    match action {
        ClientAction::Send(m) => {
            matches!(m, Message::Ping);
        }
        _ => panic!("a heartbeat must send a ping"),
    }

    let out = Message::ClipboardAck { checksum: "c".to_string(), success: true };
    let (_, action) = client_step(ClientPhase::Streaming, ClientEvent::Queued(out), &None);
    matches!(action, ClientAction::Send(_));

    let (_, action) = client_step(ClientPhase::Streaming, ClientEvent::Inbound(Message::Pong), &None);
    matches!(action, ClientAction::Idle);
}

#[test]
fn monitor_detects_changes() {
    let (last, fired) = monitor_step(None, PollOutcome::Content { checksum: "aa".to_string() });
    assert!(fired);
    assert_eq!(last.as_deref(), Some("aa"));

    let (last, fired) = monitor_step(last, PollOutcome::Content { checksum: "aa".to_string() });
    assert!(!fired);

    let (last, fired) = monitor_step(last, PollOutcome::Content { checksum: "bb".to_string() });
    assert!(fired);
    assert_eq!(last.as_deref(), Some("bb"));
}

#[test]
fn monitor_empty_resets_and_error_keeps() {
    let last = Some("aa".to_string());
    let (after_err, fired) = monitor_step(last, PollOutcome::ReadError);
    assert!(!fired);
    assert_eq!(after_err.as_deref(), Some("aa"));

    let (after_empty, fired) = monitor_step(after_err, PollOutcome::Empty);
    assert!(!fired);
    assert!(after_empty.is_none());

    // After a reset, the same content counts as a change again.
    let (_, fired) = monitor_step(after_empty, PollOutcome::Content { checksum: "aa".to_string() });
    assert!(fired);
}

#[test]
fn content_round_trips_through_base64() {
    let img = ClipboardContent::Image(vec![0u8, 1, 2, 250, 251, 252]);
    let wire = img.to_base64();
    match ClipboardContent::from_base64("image", &wire).unwrap() {
        ClipboardContent::Image(v) => assert_eq!(v, vec![0u8, 1, 2, 250, 251, 252]),
        _ => panic!("wrong content kind"),
    }

    let text = ClipboardContent::Text("plain".to_string());
    assert_eq!(text.to_base64(), "plain");
    assert_eq!(text.content_type_str(), "text");
    match ClipboardContent::from_base64("text", "plain").unwrap() {
        ClipboardContent::Text(t) => assert_eq!(t, "plain"),
        _ => panic!("wrong content kind"),
    }

    match ClipboardContent::from_base64("rtf", "x") {
        Err(ContentError::UnknownType) => {}
        _ => panic!("unknown type names must be rejected"),
    }
    match ClipboardContent::from_base64("image", "not base64!") {
        Err(ContentError::BadEncoding) => {}
        _ => panic!("bad base64 must be rejected"),
    }
}

#[test]
fn content_type_names_round_trip() {
    for t in [
        ClipboardContentType::Text,
        ClipboardContentType::Image,
        ClipboardContentType::Html,
        ClipboardContentType::Rtf,
        ClipboardContentType::Files,
    ] {
        assert_eq!(ClipboardContentType::from_str(t.as_str()), Some(t));
    }
    assert_eq!(ClipboardContentType::from_str("nonsense"), None);
}

#[test]
fn config_defaults() {
    let c = Config::default();
    assert_eq!(c.server.host, "0.0.0.0");
    assert_eq!(c.server.port, 9876);
    assert!(c.server.auth_token.is_none());
    assert_eq!(c.client.server_host, "127.0.0.1");
    assert!(c.client.auto_connect);
    assert_eq!(c.storage.max_history, 1000);
    assert_eq!(c.storage.max_content_size_mb, 10);
    assert_eq!(c.sync.interval_ms, 500);
    assert_eq!(c.sync.retry_delay_ms, 5000);
    assert_eq!(c.sync.heartbeat_interval_ms, 30000);
    assert!(c.get_database_path().is_none());

    let q = ClipboardSearchQuery::default();
    assert_eq!(q.limit, 100);
    assert_eq!(q.offset, 0);
    assert!(q.content_type.is_none());

    let d = ClipboardDaemon::new(c, DaemonMode::Both);
    assert_eq!(d.mode, DaemonMode::Both);
}
