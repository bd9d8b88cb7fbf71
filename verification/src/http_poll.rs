//! The HTTP polling variant's decision kernel.  The runtime fetches the
//! server's latest item and reads the local clipboard; these steps decide
//! what to apply, what to send, and what to remember, so that a machine
//! never re-applies content it just sent.
use crate::checksum::{checksum_of_bytes, checksum_of_str, spec_checksum, spec_checksum_bytes};
use crate::codec::{str_eq, string_from_utf8};
use crate::content::{b64_decode, b64_of};
use vstd::prelude::*;

verus! {

/// What the poller remembers between rounds.
pub struct PollState {
    /// Digest of the content this machine last sent or applied.
    pub last_sent_hash: Option<String>,
    /// Id of the newest server item already applied.
    pub last_received_id: u64,
}

/// What one poll round asks the runtime to do.
pub enum PollAction {
    /// Nothing new, nothing to do.
    Ignore,
    /// Put this text on the local clipboard.
    ApplyText { text: String },
    /// Put this image on the local clipboard.
    ApplyImage { data: Vec<u8> },
}

/// Decide on one item fetched from the server: skip items already seen, skip
/// content that is not canonical base64, and skip content whose digest is
/// the one last sent from here; otherwise apply it and remember it.
#[verifier::rlimit(100)]
pub fn poll_step(state: &mut PollState, item_id: u64, content: Option<String>) -> (r: PollAction)
    ensures
        item_id <= old(state).last_received_id ==> r is Ignore
            && final(state).last_received_id == old(state).last_received_id
            && final(state).last_sent_hash == old(state).last_sent_hash,
        (item_id > old(state).last_received_id && content is None) ==> r is Ignore
            && final(state).last_received_id == old(state).last_received_id
            && final(state).last_sent_hash == old(state).last_sent_hash,
        content matches Some(c) ==> (item_id > old(state).last_received_id ==> match r {
            PollAction::Ignore => {
                &&& final(state).last_received_id == old(state).last_received_id
                &&& final(state).last_sent_hash == old(state).last_sent_hash
                &&& ((forall|b: Seq<u8>| c@ != b64_of(b)) || (exists|b: Seq<u8>|
                    c@ == b64_of(b) && (old(state).last_sent_hash matches Some(h) && h@
                        == spec_checksum_bytes(b))))
            },
            PollAction::ApplyText { text } => {
                &&& c@ == b64_of(vstd::utf8::encode_utf8(text@))
                &&& final(state).last_received_id == item_id
                &&& final(state).last_sent_hash matches Some(h) && h@ == spec_checksum(text@)
                &&& !(old(state).last_sent_hash matches Some(h2) && h2@ == spec_checksum(text@))
            },
            PollAction::ApplyImage { data } => {
                &&& c@ == b64_of(data@)
                &&& final(state).last_received_id == item_id
                &&& final(state).last_sent_hash matches Some(h) && h@ == spec_checksum_bytes(data@)
                &&& !(old(state).last_sent_hash matches Some(h2) && h2@ == spec_checksum_bytes(
                    data@,
                ))
            },
        }),
{
    if item_id <= state.last_received_id {
        return PollAction::Ignore;
    }
    let c = match content {
        Some(c) => c,
        None => {
            return PollAction::Ignore;
        },
    };
    let bytes = match b64_decode(c.as_str()) {
        Some(v) => v,
        None => {
            return PollAction::Ignore;
        },
    };
    let hash = checksum_of_bytes(bytes.as_slice());
    let dup = match &state.last_sent_hash {
        Some(h) => str_eq(h.as_str(), hash.as_str()),
        None => false,
    };
    if dup {
        proof {
            assert(exists|b: Seq<u8>|
                c@ == b64_of(b) && (old(state).last_sent_hash matches Some(h) && h@
                    == spec_checksum_bytes(b))) by {
                assert(c@ == b64_of(bytes@) && (old(state).last_sent_hash matches Some(h) && h@
                    == spec_checksum_bytes(bytes@)));
            }
        }
        return PollAction::Ignore;
    }
    state.last_received_id = item_id;
    state.last_sent_hash = Some(hash);
    let keep = vstd::slice::slice_to_vec(bytes.as_slice());
    match string_from_utf8(bytes) {
        Some(text) => PollAction::ApplyText { text },
        None => PollAction::ApplyImage { data: keep },
    }
}

/// Decide on one local clipboard read: send it when its digest differs from
/// the one last sent, and remember what was sent.
pub fn local_step(state: &mut PollState, text: String) -> (r: Option<String>)
    ensures
        (old(state).last_sent_hash matches Some(h) && h@ == spec_checksum(text@)) ==> r is None
            && final(state).last_sent_hash == old(state).last_sent_hash,
        !(old(state).last_sent_hash matches Some(h) && h@ == spec_checksum(text@)) ==> (r matches
            Some(t) && t@ == text@ && (final(state).last_sent_hash matches Some(h2) && h2@
            == spec_checksum(text@))),
        final(state).last_received_id == old(state).last_received_id,
{
    let hash = checksum_of_str(text.as_str());
    let dup = match &state.last_sent_hash {
        Some(h) => str_eq(h.as_str(), hash.as_str()),
        None => false,
    };
    if dup {
        None
    } else {
        state.last_sent_hash = Some(hash);
        Some(text)
    }
}

} // verus!
