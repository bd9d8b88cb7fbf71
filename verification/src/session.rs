//! The server-side per-connection session: authentication state and message
//! dispatch.  `session_step` is the full model of how one inbound message
//! changes the store and the session and what is sent back; `handle_message`
//! is proved to implement it.
use crate::codec::str_eq;
use crate::models::{ClipboardContentType, ClipboardEntry, ClipboardEntryV};
use crate::protocol::{HistoryEntry, HistoryEntryV, Message, MessageV};
use crate::store::{
    lemma_store_insert_wf, spec_search, store_insert, wf_store, ClipboardStorage, StoreV,
};
use crate::models::{ClipboardSearchQuery, ClipboardSearchQueryV};
use vstd::prelude::*;

verus! {

/// Per-connection authentication state.
pub struct Session {
    pub authenticated: bool,
}

/// What one step does: the store and flag afterwards, the replies written
/// back on this connection, and the entry handed to the broadcast fan-out.
pub ghost struct SessionStepV {
    pub store: StoreV,
    pub authenticated: bool,
    pub replies: Seq<MessageV>,
    pub broadcast: Option<ClipboardEntryV>,
}

/// The entry built from a remote clipboard update; an unknown content-type
/// name falls back to text.
pub open spec fn update_entry(
    content_type: Seq<char>,
    content: Seq<char>,
    timestamp: int,
    source: Seq<char>,
    checksum: Seq<char>,
) -> ClipboardEntryV {
    ClipboardEntryV {
        id: None,
        content_type: match ClipboardContentType::spec_of_str(content_type) {
            Some(t) => t,
            None => ClipboardContentType::Text,
        },
        content,
        metadata: None,
        source,
        timestamp,
        checksum,
    }
}

/// A stored row in its wire form.
pub open spec fn wire_entry(e: ClipboardEntryV) -> HistoryEntryV {
    HistoryEntryV {
        id: match e.id {
            Some(v) => v,
            None => 0,
        },
        content_type: e.content_type.spec_str(),
        content: e.content,
        source: e.source,
        timestamp: e.timestamp,
        checksum: e.checksum,
    }
}

/// The query that a history request runs: no filters, just paging.
pub open spec fn history_query(limit: nat, offset: nat) -> ClipboardSearchQueryV {
    ClipboardSearchQueryV { content_type: None, source: None, search_text: None, limit, offset }
}

/// One step of the session state machine.
///
/// While unauthenticated, only `Auth` and `Ping` are honored; state-changing
/// messages are dropped silently.  `Ping` is always answered.  A wrong token
/// leaves the session inert but open.
pub open spec fn session_step(
    m: MessageV,
    auth_token: Option<Seq<char>>,
    store: StoreV,
    authed: bool,
) -> SessionStepV {
    match m {
        MessageV::Auth { token } => {
            let ok = match auth_token {
                Some(t) => token == t,
                None => true,
            };
            SessionStepV {
                store,
                authenticated: ok,
                replies: seq![
                    MessageV::AuthResponse {
                        success: ok,
                        message: if ok {
                            "Authentication successful"@
                        } else {
                            "Authentication failed"@
                        },
                    },
                ],
                broadcast: None,
            }
        },
        MessageV::Ping => SessionStepV {
            store,
            authenticated: authed,
            replies: seq![MessageV::Pong],
            broadcast: None,
        },
        MessageV::ClipboardUpdate { content_type, content, timestamp, source, checksum } => {
            if !authed {
                SessionStepV { store, authenticated: authed, replies: Seq::empty(), broadcast: None }
            } else {
                let e = update_entry(content_type, content, timestamp, source, checksum);
                SessionStepV {
                    store: store_insert(store, e),
                    authenticated: authed,
                    replies: seq![MessageV::ClipboardAck { checksum, success: true }],
                    broadcast: Some(e),
                }
            }
        },
        MessageV::HistoryRequest { limit, offset } => {
            if !authed {
                SessionStepV { store, authenticated: authed, replies: Seq::empty(), broadcast: None }
            } else {
                let found = spec_search(store.entries, history_query(limit, offset));
                SessionStepV {
                    store,
                    authenticated: authed,
                    replies: seq![
                        MessageV::HistoryResponse {
                            entries: found.map_values(|e: ClipboardEntryV| wire_entry(e)),
                        },
                    ],
                    broadcast: None,
                }
            }
        },
        _ => SessionStepV { store, authenticated: authed, replies: Seq::empty(), broadcast: None },
    }
}

/// Handle one inbound message on a session.
#[verifier::rlimit(100)]
pub fn handle_message(
    msg: Message,
    auth_token: &Option<String>,
    store: &mut ClipboardStorage,
    sess: &mut Session,
) -> (r: (Vec<Message>, Option<ClipboardEntry>))
    requires
        wf_store(old(store)@),
        old(store)@.next_id < 0x7fff_ffff_ffff_ffff,
    ensures
        ({
            let st = session_step(
                msg@,
                match *auth_token {
                    Some(ref t) => Some(t@),
                    None => None,
                },
                old(store)@,
                old(sess).authenticated,
            );
            &&& final(store)@ == st.store
            &&& final(sess).authenticated == st.authenticated
            &&& r.0@.map_values(|m: Message| m@) == st.replies
            &&& match (r.1, st.broadcast) {
                (Some(ref e), Some(ev)) => e@ == ev,
                (None, None) => true,
                _ => false,
            }
            &&& wf_store(final(store)@)
        }),
{
    let ghost tokv: Option<Seq<char>> = match *auth_token {
        Some(ref t) => Some(t@),
        None => None,
    };
    let ghost st = session_step(msg@, tokv, old(store)@, old(sess).authenticated);
    match msg {
        Message::Auth { token } => {
            let ok = match auth_token {
                Some(t) => str_eq(token.as_str(), t.as_str()),
                None => true,
            };
            sess.authenticated = ok;
            let reply = Message::AuthResponse {
                success: ok,
                message: if ok {
                    String::from_str("Authentication successful")
                } else {
                    String::from_str("Authentication failed")
                },
            };
            let mut replies: Vec<Message> = Vec::new();
            replies.push(reply);
            proof {
                assert(replies@.map_values(|m: Message| m@) =~= st.replies);
            }
            (replies, None)
        },
        Message::Ping => {
            let mut replies: Vec<Message> = Vec::new();
            replies.push(Message::Pong);
            proof {
                assert(replies@.map_values(|m: Message| m@) =~= st.replies);
            }
            (replies, None)
        },
        Message::ClipboardUpdate { content_type, content, timestamp, source, checksum } => {
            if !sess.authenticated {
                let replies: Vec<Message> = Vec::new();
                proof {
                    assert(replies@.map_values(|m: Message| m@) =~= st.replies);
                }
                (replies, None)
            } else {
                let ct = match ClipboardContentType::from_str(content_type.as_str()) {
                    Some(t) => t,
                    None => ClipboardContentType::Text,
                };
                let entry = ClipboardEntry {
                    id: None,
                    content_type: ct,
                    content,
                    metadata: None,
                    source,
                    timestamp,
                    checksum,
                };
                proof {
                    lemma_store_insert_wf(store@, entry@);
                }
                let _ = store.insert(&entry);
                let ack_ck = entry.checksum.clone();
                let mut replies: Vec<Message> = Vec::new();
                replies.push(Message::ClipboardAck { checksum: ack_ck, success: true });
                proof {
                    assert(replies@.map_values(|m: Message| m@) =~= st.replies);
                }
                (replies, Some(entry))
            }
        },
        Message::HistoryRequest { limit, offset } => {
            if !sess.authenticated {
                let replies: Vec<Message> = Vec::new();
                proof {
                    assert(replies@.map_values(|m: Message| m@) =~= st.replies);
                }
                (replies, None)
            } else {
                let query = ClipboardSearchQuery {
                    content_type: None,
                    source: None,
                    search_text: None,
                    limit,
                    offset,
                };
                let found = store.search(&query);
                let ghost foundv = spec_search(store@.entries, history_query(limit as nat, offset as nat));
                let mut wires: Vec<HistoryEntry> = Vec::new();
                let mut i: usize = 0;
                proof {
                    assert(found@.map_values(|e: ClipboardEntry| e@) == foundv);
                }
                while i < found.len()
                    invariant
                        i <= found@.len(),
                        found@.map_values(|e: ClipboardEntry| e@) == foundv,
                        wires@.map_values(|w: HistoryEntry| w@) == foundv.subrange(
                            0,
                            i as int,
                        ).map_values(|e: ClipboardEntryV| wire_entry(e)),
                    decreases found@.len() - i,
                {
                    let e = &found[i];
                    let w = HistoryEntry {
                        id: match e.id {
                            Some(v) => v,
                            None => 0,
                        },
                        content_type: String::from_str(e.content_type.as_str()),
                        content: e.content.clone(),
                        source: e.source.clone(),
                        timestamp: e.timestamp,
                        checksum: e.checksum.clone(),
                    };
                    proof {
                        assert(found@[i as int]@ == foundv[i as int]);
                        assert(w@ == wire_entry(foundv[i as int]));
                    }
                    let ghost prew = wires@;
                    let ghost premap = prew.map_values(|w2: HistoryEntry| w2@);
                    proof {
                        assert(premap.len() == i as int);
                    }
                    wires.push(w);
                    proof {
                        assert(wires@ =~= prew.push(w));
                        let tgt = foundv.subrange(0, i + 1).map_values(
                            |e2: ClipboardEntryV| wire_entry(e2),
                        );
                        assert(wires@.map_values(|w2: HistoryEntry| w2@) =~= tgt) by {
                            assert forall|idx: int| #![trigger wires@[idx]]
                                0 <= idx < wires@.len() implies wires@.map_values(
                                |w2: HistoryEntry| w2@,
                            )[idx] == tgt[idx] by {
                                if idx < i as int {
                                    assert(wires@[idx] == prew[idx]);
                                    assert(premap[idx] == prew[idx]@);
                                    assert(premap[idx] == foundv.subrange(0, i as int).map_values(
                                        |e2: ClipboardEntryV| wire_entry(e2),
                                    )[idx]);
                                    assert(foundv.subrange(0, i as int)[idx] == foundv[idx]);
                                    assert(foundv.subrange(0, i + 1)[idx] == foundv[idx]);
                                } else {
                                    assert(wires@[idx] == w);
                                    assert(foundv.subrange(0, i + 1)[idx] == foundv[idx]);
                                }
                            }
                        }
                    }
                    i = i + 1;
                }
                proof {
                    assert(foundv.subrange(0, foundv.len() as int) =~= foundv);
                }
                let mut replies: Vec<Message> = Vec::new();
                replies.push(Message::HistoryResponse { entries: wires });
                proof {
                    assert(replies@.map_values(|m: Message| m@) =~= st.replies);
                }
                (replies, None)
            }
        },
        _ => {
            let replies: Vec<Message> = Vec::new();
            proof {
                assert(replies@.map_values(|m: Message| m@) =~= st.replies);
            }
            (replies, None)
        },
    }
}

/// An unauthenticated session drops a clipboard update: no stored row, no
/// reply, no broadcast.
pub proof fn lemma_unauth_update_ignored(
    upd: MessageV,
    auth_token: Option<Seq<char>>,
    store: StoreV,
)
    requires
        upd is ClipboardUpdate,
    ensures
        session_step(upd, auth_token, store, false).store == store,
        session_step(upd, auth_token, store, false).replies.len() == 0,
        session_step(upd, auth_token, store, false).broadcast is None,
{
}

/// A wrong token is answered with a failure reply, the session stays
/// unauthenticated, and a clipboard update that follows is still ignored.
pub proof fn lemma_auth_gating(
    tok: Seq<char>,
    expected: Seq<char>,
    store: StoreV,
    upd: MessageV,
)
    requires
        tok != expected,
        upd is ClipboardUpdate,
    ensures
        ({
            let s1 = session_step(MessageV::Auth { token: tok }, Some(expected), store, false);
            &&& s1.replies == seq![
                MessageV::AuthResponse { success: false, message: "Authentication failed"@ },
            ]
            &&& !s1.authenticated
            &&& s1.store == store
            &&& session_step(upd, Some(expected), s1.store, s1.authenticated).store == store
            &&& session_step(upd, Some(expected), s1.store, s1.authenticated).replies.len() == 0
            &&& session_step(upd, Some(expected), s1.store, s1.authenticated).broadcast is None
        }),
{
}

} // verus!
