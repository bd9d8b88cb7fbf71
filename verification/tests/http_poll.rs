use clip_sync::checksum::checksum_of_str;
use clip_sync::content::ClipboardContent;
use clip_sync::http_poll::{local_step, poll_step, PollAction, PollState};

fn b64(text: &str) -> String {
    ClipboardContent::Image(text.as_bytes().to_vec()).to_base64()
}

#[test]
fn poll_applies_new_text_once() {
    let mut state = PollState { last_sent_hash: None, last_received_id: 0 };
    match poll_step(&mut state, 1, Some(b64("hello"))) {
        PollAction::ApplyText { text } => assert_eq!(text, "hello"),
        _ => panic!("fresh text must be applied"),
    }
    assert_eq!(state.last_received_id, 1);
    assert_eq!(state.last_sent_hash.as_deref(), Some(checksum_of_str("hello").as_str()));

    // The same item id again is ignored.
    match poll_step(&mut state, 1, Some(b64("hello"))) {
        PollAction::Ignore => {}
        _ => panic!("an already-seen id must be ignored"),
    }
}

#[test]
fn poll_skips_own_content() {
    // What this machine just sent must not be re-applied when it comes back.
    let mut state = PollState {
        last_sent_hash: Some(checksum_of_str("mine")),
        last_received_id: 0,
    };
    match poll_step(&mut state, 5, Some(b64("mine"))) {
        PollAction::Ignore => {}
        _ => panic!("own content must not bounce back"),
    }
    assert_eq!(state.last_received_id, 0);
}

#[test]
fn poll_rejects_bad_base64_and_missing_content() {
    let mut state = PollState { last_sent_hash: None, last_received_id: 0 };
    match poll_step(&mut state, 2, Some("!!not base64!!".to_string())) {
        PollAction::Ignore => {}
        _ => panic!("bad base64 must be ignored"),
    }
    match poll_step(&mut state, 2, None) {
        PollAction::Ignore => {}
        _ => panic!("an item without content must be ignored"),
    }
    assert_eq!(state.last_received_id, 0);
}

#[test]
fn poll_applies_binary_as_image() {
    let mut state = PollState { last_sent_hash: None, last_received_id: 0 };
    let raw = vec![0xffu8, 0xfe, 0x00, 0x01];
    let wire = ClipboardContent::Image(raw.clone()).to_base64();
    match poll_step(&mut state, 3, Some(wire)) {
        PollAction::ApplyImage { data } => assert_eq!(data, raw),
        _ => panic!("non-text bytes must be applied as an image"),
    }
    assert_eq!(state.last_received_id, 3);
}

#[test]
fn local_sends_only_changes() {
    let mut state = PollState { last_sent_hash: None, last_received_id: 7 };
    assert_eq!(local_step(&mut state, "fresh".to_string()).as_deref(), Some("fresh"));
    assert!(local_step(&mut state, "fresh".to_string()).is_none());
    assert_eq!(local_step(&mut state, "other".to_string()).as_deref(), Some("other"));
    assert_eq!(state.last_received_id, 7);
}
