use clip_sync::checksum::checksum_of_str;
use clip_sync::models::{ClipboardContentType, ClipboardEntry, ClipboardSearchQuery};
use clip_sync::protocol::Message;
use clip_sync::session::{handle_message, Session};
use clip_sync::store::ClipboardStorage;

fn entry(content: &str, source: &str, ts: i64) -> ClipboardEntry {
    ClipboardEntry::new(
        ClipboardContentType::Text,
        content.to_string(),
        source.to_string(),
        ts,
    )
}

#[test]
fn insert_assigns_increasing_ids() {
    let mut store = ClipboardStorage::new(10);
    let id1 = store.insert(&entry("one", "a", 1));
    let id2 = store.insert(&entry("two", "a", 2));
    assert_eq!(id1, 1);
    assert_eq!(id2, 2);
    assert_eq!(store.get_count(), 2);
}

#[test]
fn duplicate_checksum_is_idempotent() {
    let mut store = ClipboardStorage::new(10);
    let id1 = store.insert(&entry("same", "a", 100));
    let id2 = store.insert(&entry("same", "b", 200));
    assert_eq!(id1, id2);
    assert_eq!(store.get_count(), 1);
    let latest = store.get_latest().unwrap();
    assert_eq!(latest.timestamp, 200);
    assert_eq!(latest.id, Some(id1));
}

#[test]
fn duplicate_keeps_later_timestamp_even_out_of_order() {
    let mut store = ClipboardStorage::new(10);
    store.insert(&entry("same", "a", 500));
    store.insert(&entry("same", "b", 200));
    let latest = store.get_latest().unwrap();
    assert_eq!(latest.timestamp, 500);
    assert_eq!(store.get_count(), 1);
}

#[test]
fn eviction_keeps_most_recent() {
    let mut store = ClipboardStorage::new(3);
    for (i, text) in ["one", "two", "three", "four", "five"].iter().enumerate() {
        store.insert(&entry(text, "a", (i + 1) as i64));
    }
    assert_eq!(store.get_count(), 3);
    let all = store.search(&ClipboardSearchQuery::default());
    let contents: Vec<&str> = all.iter().map(|e| e.content.as_str()).collect();
    assert_eq!(contents, vec!["five", "four", "three"]);
}

#[test]
fn latest_is_newest_and_clear_empties() {
    let mut store = ClipboardStorage::new(10);
    store.insert(&entry("old", "a", 1));
    store.insert(&entry("new", "a", 2));
    assert_eq!(store.get_latest().unwrap().content, "new");
    store.clear();
    assert_eq!(store.get_count(), 0);
    assert!(store.get_latest().is_none());
}

#[test]
fn search_filters_and_pages() {
    let mut store = ClipboardStorage::new(10);
    store.insert(&entry("alpha text", "mac", 1));
    store.insert(&entry("beta text", "nix", 2));
    store.insert(&entry("gamma", "mac", 3));

    let mut by_source = ClipboardSearchQuery::default();
    by_source.source = Some("mac".to_string());
    let found = store.search(&by_source);
    assert_eq!(found.len(), 2);
    assert_eq!(found[0].content, "gamma");

    let mut by_text = ClipboardSearchQuery::default();
    by_text.search_text = Some("text".to_string());
    let found = store.search(&by_text);
    assert_eq!(found.len(), 2);
    assert_eq!(found[0].content, "beta text");

    let mut paged = ClipboardSearchQuery::default();
    paged.limit = 1;
    paged.offset = 1;
    let found = store.search(&paged);
    assert_eq!(found.len(), 1);
    assert_eq!(found[0].content, "beta text");

    let mut by_type = ClipboardSearchQuery::default();
    by_type.content_type = Some(ClipboardContentType::Image);
    assert_eq!(store.search(&by_type).len(), 0);
}

fn update(content: &str, ts: i64) -> Message {
    Message::ClipboardUpdate {
        content_type: "text".to_string(),
        content: content.to_string(),
        timestamp: ts,
        source: "peer".to_string(),
        checksum: checksum_of_str(content),
    }
}

#[test]
fn auth_gating_ignores_updates() {
    let token = Some("right".to_string());
    let mut store = ClipboardStorage::new(10);
    // A session starts unauthenticated when a token is configured.
    let mut sess = Session { authenticated: token.is_none() };

    let (replies, broadcast) = handle_message(update("hello", 1), &token, &mut store, &mut sess);
    assert_eq!(replies.len(), 0);
    assert!(broadcast.is_none());
    assert_eq!(store.get_count(), 0);

    let bad = Message::Auth { token: "wrong".to_string() };
    let (replies, _) = handle_message(bad, &token, &mut store, &mut sess);
    assert_eq!(replies.len(), 1);
    match &replies[0] {
        Message::AuthResponse { success, message } => {
            assert!(!success);
            assert_eq!(message, "Authentication failed");
        }
        _ => panic!("expected an auth reply"),
    }
    assert!(!sess.authenticated);

    let (replies, broadcast) = handle_message(update("still", 2), &token, &mut store, &mut sess);
    assert_eq!(replies.len(), 0);
    assert!(broadcast.is_none());
    assert_eq!(store.get_count(), 0);
}

#[test]
fn auth_with_right_token_unlocks() {
    let token = Some("right".to_string());
    let mut store = ClipboardStorage::new(10);
    let mut sess = Session { authenticated: token.is_none() };

    let good = Message::Auth { token: "right".to_string() };
    let (replies, _) = handle_message(good, &token, &mut store, &mut sess);
    match &replies[0] {
        Message::AuthResponse { success, message } => {
            assert!(success);
            assert_eq!(message, "Authentication successful");
        }
        _ => panic!("expected an auth reply"),
    }
    assert!(sess.authenticated);

    let (replies, broadcast) = handle_message(update("hello", 1), &token, &mut store, &mut sess);
    assert_eq!(store.get_count(), 1);
    assert!(broadcast.is_some());
    match &replies[0] {
        Message::ClipboardAck { success, .. } => assert!(success),
        _ => panic!("expected an ack"),
    }
}

#[test]
fn ping_is_answered_even_before_auth() {
    let token = Some("right".to_string());
    let mut store = ClipboardStorage::new(10);
    let mut sess = Session { authenticated: false };
    let (replies, _) = handle_message(Message::Ping, &token, &mut store, &mut sess);
    assert_eq!(replies.len(), 1);
    matches!(replies[0], Message::Pong);
    assert!(!sess.authenticated);
}

#[test]
fn server_scenario_dedups_and_evicts() {
    // A server with room for three entries, auth disabled; a client sends
    // updates with contents a, b, a, c, d.  The duplicate refreshes a's
    // timestamp past b's, so the three retained rows are d, c, a.
    let token: Option<String> = None;
    let mut store = ClipboardStorage::new(3);
    let mut sess = Session { authenticated: token.is_none() };

    for (i, text) in ["a", "b", "a", "c", "d"].iter().enumerate() {
        let (replies, _) = handle_message(update(text, (i + 1) as i64), &token, &mut store, &mut sess);
        assert_eq!(replies.len(), 1);
    }
    assert_eq!(store.get_count(), 3);
    let all = store.search(&ClipboardSearchQuery::default());
    let contents: Vec<&str> = all.iter().map(|e| e.content.as_str()).collect();
    assert_eq!(contents, vec!["d", "c", "a"]);
}

#[test]
fn history_request_pages_newest_first() {
    let token: Option<String> = None;
    let mut store = ClipboardStorage::new(10);
    let mut sess = Session { authenticated: true };
    for (i, text) in ["one", "two", "three"].iter().enumerate() {
        handle_message(update(text, (i + 1) as i64), &token, &mut store, &mut sess);
    }
    let req = Message::HistoryRequest { limit: 2, offset: 1 };
    let (replies, _) = handle_message(req, &token, &mut store, &mut sess);
    match &replies[0] {
        Message::HistoryResponse { entries } => {
            assert_eq!(entries.len(), 2);
            assert_eq!(entries[0].content, "two");
            assert_eq!(entries[1].content, "one");
            assert_eq!(entries[0].content_type, "text");
        }
        _ => panic!("expected a history reply"),
    }
}

#[test]
fn entry_new_computes_checksum() {
    let e = entry("payload", "src", 42);
    assert_eq!(e.checksum, checksum_of_str("payload"));
    assert_eq!(e.id, None);
    assert_eq!(e.timestamp, 42);
    let with_meta = e.with_metadata("k=v".to_string());
    assert_eq!(with_meta.metadata.as_deref(), Some("k=v"));
}

#[test]
fn checksum_is_stable_and_separates() {
    assert_eq!(checksum_of_str("same"), checksum_of_str("same"));
    assert_ne!(checksum_of_str("same"), checksum_of_str("other"));
    for c in checksum_of_str("anything").chars() {
        assert!(c.is_ascii_hexdigit());
    }
}
