//! The wire protocol: the message vocabulary, its canonical structured-text
//! encoding, and length-prefixed framing.
//!
//! A frame is a four-byte big-endian payload length followed by the payload.
//! The payload is a JSON-style text whose field names and content-type string
//! values are fixed; `payload` below is its canonical spec-level form, and
//! `to_bytes` / `from_bytes` are proved to emit and accept exactly that form.
use crate::codec::{
    be32_at, be32_bytes, dec_int, dec_nat, esc, is_digit, is_prefix_at, lemma_be32_bytes_at,
    lemma_be32_roundtrip, lemma_i64_scan_complete, lemma_i64_scan_sound, lemma_prefix_concat,
    lemma_seg_glue, lemma_sq_scan_complete, lemma_sq_scan_sound, lemma_u64_scan_complete,
    lemma_u64_scan_sound, match_at, parse_i64, parse_u64, push_be32, push_i64, push_quoted,
    push_slice, push_u64, quoted, scan_quoted, sq_scan, string_from_utf8,
};
use vstd::prelude::*;
use vstd::string::StringExecFns;

verus! {

/// One stored entry as it crosses the wire in a history reply.
pub struct HistoryEntry {
    pub id: i64,
    pub content_type: String,
    pub content: String,
    pub source: String,
    pub timestamp: i64,
    pub checksum: String,
}

/// Spec-level image of a history entry.
pub ghost struct HistoryEntryV {
    pub id: int,
    pub content_type: Seq<char>,
    pub content: Seq<char>,
    pub source: Seq<char>,
    pub timestamp: int,
    pub checksum: Seq<char>,
}

impl View for HistoryEntry {
    type V = HistoryEntryV;

    open spec fn view(&self) -> HistoryEntryV {
        HistoryEntryV {
            id: self.id as int,
            content_type: self.content_type@,
            content: self.content@,
            source: self.source@,
            timestamp: self.timestamp as int,
            checksum: self.checksum@,
        }
    }
}

/// The message vocabulary of the sync protocol.
pub enum Message {
    Auth { token: String },
    AuthResponse { success: bool, message: String },
    ClipboardUpdate {
        content_type: String,
        content: String,
        timestamp: i64,
        source: String,
        checksum: String,
    },
    ClipboardAck { checksum: String, success: bool },
    HistoryRequest { limit: usize, offset: usize },
    HistoryResponse { entries: Vec<HistoryEntry> },
    Ping,
    Pong,
    Error { message: String },
}

/// Spec-level image of a message.
pub ghost enum MessageV {
    Auth { token: Seq<char> },
    AuthResponse { success: bool, message: Seq<char> },
    ClipboardUpdate {
        content_type: Seq<char>,
        content: Seq<char>,
        timestamp: int,
        source: Seq<char>,
        checksum: Seq<char>,
    },
    ClipboardAck { checksum: Seq<char>, success: bool },
    HistoryRequest { limit: nat, offset: nat },
    HistoryResponse { entries: Seq<HistoryEntryV> },
    Ping,
    Pong,
    Error { message: Seq<char> },
}

impl View for Message {
    type V = MessageV;

    open spec fn view(&self) -> MessageV {
        match self {
            Message::Auth { token } => MessageV::Auth { token: token@ },
            Message::AuthResponse { success, message } => MessageV::AuthResponse {
                success: *success,
                message: message@,
            },
            Message::ClipboardUpdate { content_type, content, timestamp, source, checksum } => {
                MessageV::ClipboardUpdate {
                    content_type: content_type@,
                    content: content@,
                    timestamp: *timestamp as int,
                    source: source@,
                    checksum: checksum@,
                }
            },
            Message::ClipboardAck { checksum, success } => MessageV::ClipboardAck {
                checksum: checksum@,
                success: *success,
            },
            Message::HistoryRequest { limit, offset } => MessageV::HistoryRequest {
                limit: *limit as nat,
                offset: *offset as nat,
            },
            Message::HistoryResponse { entries } => MessageV::HistoryResponse {
                entries: entries@.map_values(|e: HistoryEntry| e@),
            },
            Message::Ping => MessageV::Ping,
            Message::Pong => MessageV::Pong,
            Message::Error { message } => MessageV::Error { message: message@ },
        }
    }
}

/// Numeric fields fit the machine types that carry them.  Every view of an
/// executable `Message` satisfies this.
pub open spec fn wf_entry(e: HistoryEntryV) -> bool {
    &&& -0x8000_0000_0000_0000 <= e.id <= 0x7fff_ffff_ffff_ffff
    &&& -0x8000_0000_0000_0000 <= e.timestamp <= 0x7fff_ffff_ffff_ffff
}

pub open spec fn wf_msg(m: MessageV) -> bool {
    match m {
        MessageV::ClipboardUpdate { timestamp, .. } => -0x8000_0000_0000_0000 <= timestamp
            <= 0x7fff_ffff_ffff_ffff,
        MessageV::HistoryRequest { limit, offset } => limit <= usize::MAX && offset <= usize::MAX,
        MessageV::HistoryResponse { entries } => forall|i: int|
            0 <= i < entries.len() ==> wf_entry(#[trigger] entries[i]),
        _ => true,
    }
}

// ---------------------------------------------------------------------------
// Canonical payload text
// ---------------------------------------------------------------------------
pub open spec fn bool_payload(v: bool) -> Seq<u8> {
    if v {
        seq![0x74u8, 0x72u8, 0x75u8, 0x65u8]
    } else {
        seq![0x66u8, 0x61u8, 0x6cu8, 0x73u8, 0x65u8]
    }
}

/// `"name":value`
pub open spec fn field(name: Seq<char>, v: Seq<u8>) -> Seq<u8> {
    quoted(name) + seq![0x3au8] + v
}

/// `{"name":{inner}}`
pub open spec fn obj(name: Seq<char>, inner: Seq<u8>) -> Seq<u8> {
    seq![0x7bu8] + quoted(name) + seq![0x3au8, 0x7bu8] + inner + seq![0x7du8, 0x7du8]
}

/// `{...}` body of one history entry.
pub open spec fn entry_payload(e: HistoryEntryV) -> Seq<u8> {
    seq![0x7bu8] + field("id"@, dec_int(e.id)) + seq![0x2cu8] + field(
        "content_type"@,
        quoted(e.content_type),
    ) + seq![0x2cu8] + field("content"@, quoted(e.content)) + seq![0x2cu8] + field(
        "source"@,
        quoted(e.source),
    ) + seq![0x2cu8] + field("timestamp"@, dec_int(e.timestamp)) + seq![0x2cu8] + field(
        "checksum"@,
        quoted(e.checksum),
    ) + seq![0x7du8]
}

/// Comma-separated entry list.
pub open spec fn entries_payload(es: Seq<HistoryEntryV>) -> Seq<u8>
    decreases es.len(),
{
    if es.len() == 0 {
        Seq::empty()
    } else if es.len() == 1 {
        entry_payload(es[0])
    } else {
        entry_payload(es[0]) + seq![0x2cu8] + entries_payload(es.drop_first())
    }
}

/// The variant name that an object payload carries.
pub open spec fn obj_name(m: MessageV) -> Seq<char> {
    match m {
        MessageV::Auth { .. } => "Auth"@,
        MessageV::AuthResponse { .. } => "AuthResponse"@,
        MessageV::ClipboardUpdate { .. } => "ClipboardUpdate"@,
        MessageV::ClipboardAck { .. } => "ClipboardAck"@,
        MessageV::HistoryRequest { .. } => "HistoryRequest"@,
        MessageV::HistoryResponse { .. } => "HistoryResponse"@,
        MessageV::Error { .. } => "Error"@,
        MessageV::Ping => "Ping"@,
        MessageV::Pong => "Pong"@,
    }
}

/// The field list inside an object payload.
pub open spec fn obj_inner(m: MessageV) -> Seq<u8> {
    match m {
        MessageV::Auth { token } => field("token"@, quoted(token)),
        MessageV::AuthResponse { success, message } => field("success"@, bool_payload(success))
            + seq![0x2cu8] + field("message"@, quoted(message)),
        MessageV::ClipboardUpdate { content_type, content, timestamp, source, checksum } => field(
            "content_type"@,
            quoted(content_type),
        ) + seq![0x2cu8] + field("content"@, quoted(content)) + seq![0x2cu8] + field(
            "timestamp"@,
            dec_int(timestamp),
        ) + seq![0x2cu8] + field("source"@, quoted(source)) + seq![0x2cu8] + field(
            "checksum"@,
            quoted(checksum),
        ),
        MessageV::ClipboardAck { checksum, success } => field("checksum"@, quoted(checksum))
            + seq![0x2cu8] + field("success"@, bool_payload(success)),
        MessageV::HistoryRequest { limit, offset } => field("limit"@, dec_nat(limit))
            + seq![0x2cu8] + field("offset"@, dec_nat(offset)),
        MessageV::HistoryResponse { entries } => field(
            "entries"@,
            seq![0x5bu8] + entries_payload(entries) + seq![0x5du8],
        ),
        MessageV::Error { message } => field("message"@, quoted(message)),
        MessageV::Ping => Seq::empty(),
        MessageV::Pong => Seq::empty(),
    }
}

/// The canonical payload of each message.
pub open spec fn payload(m: MessageV) -> Seq<u8> {
    match m {
        MessageV::Ping => quoted("Ping"@),
        MessageV::Pong => quoted("Pong"@),
        _ => obj(obj_name(m), obj_inner(m)),
    }
}

/// One frame: big-endian payload length, then the payload.
pub open spec fn frame(m: MessageV) -> Seq<u8> {
    be32_bytes(payload(m).len() as int) + payload(m)
}

/// `m` is canonically framed at the start of `b`.
pub open spec fn frame_prefix(m: MessageV, b: Seq<u8>) -> bool {
    payload(m).len() < 0x1_0000_0000 && is_prefix_at(frame(m), b, 0)
}

// ---------------------------------------------------------------------------
// Encoding
// ---------------------------------------------------------------------------
proof fn lemma_entries_payload_push(es: Seq<HistoryEntryV>, e: HistoryEntryV)
    ensures
        es.len() == 0 ==> entries_payload(es.push(e)) == entry_payload(e),
        es.len() > 0 ==> entries_payload(es.push(e)) == entries_payload(es) + seq![0x2cu8]
            + entry_payload(e),
    decreases es.len(),
{
    let whole = es.push(e);
    if es.len() == 0 {
        assert(whole.len() == 1);
        assert(whole[0] == e);
    } else {
        assert(whole[0] == es[0]);
        assert(whole.drop_first() =~= es.drop_first().push(e));
        lemma_entries_payload_push(es.drop_first(), e);
        if es.len() == 1 {
            assert(entries_payload(whole) == entry_payload(es[0]) + seq![0x2cu8] + entry_payload(
                e,
            )) by {
                assert(whole.drop_first().len() == 1);
                assert(whole.drop_first()[0] == e);
                assert(entries_payload(whole.drop_first()) == entry_payload(e));
                assert(entry_payload(es[0]) + (seq![0x2cu8] + entry_payload(e)) =~= entry_payload(
                    es[0],
                ) + seq![0x2cu8] + entry_payload(e));
            }
            assert(entries_payload(es) == entry_payload(es[0]));
        } else {
            assert(entries_payload(whole) == entry_payload(es[0]) + seq![0x2cu8] + entries_payload(
                whole.drop_first(),
            ));
            assert(entries_payload(whole.drop_first()) == entries_payload(es.drop_first())
                + seq![0x2cu8] + entry_payload(e));
            assert(entry_payload(es[0]) + seq![0x2cu8] + (entries_payload(es.drop_first())
                + seq![0x2cu8] + entry_payload(e)) =~= (entry_payload(es[0]) + seq![0x2cu8]
                + entries_payload(es.drop_first())) + seq![0x2cu8] + entry_payload(e));
        }
    }
}

fn push_bool(out: &mut Vec<u8>, v: bool)
    ensures
        final(out)@ == old(out)@ + bool_payload(v),
{
    if v {
        out.push(0x74);
        out.push(0x72);
        out.push(0x75);
        out.push(0x65);
    } else {
        out.push(0x66);
        out.push(0x61);
        out.push(0x6c);
        out.push(0x73);
        out.push(0x65);
    }
    assert(final(out)@ =~= old(out)@ + bool_payload(v));
}

/// Append `"name":` for a field.
fn push_field_name(out: &mut Vec<u8>, name: &str)
    ensures
        final(out)@ == old(out)@ + quoted(name@) + seq![0x3au8],
{
    push_quoted(out, name);
    out.push(0x3a);
    assert(final(out)@ =~= old(out)@ + quoted(name@) + seq![0x3au8]);
}

/// Append `{"name":{` for an object head.
fn push_obj_head(out: &mut Vec<u8>, name: &str)
    ensures
        final(out)@ == old(out)@ + seq![0x7bu8] + quoted(name@) + seq![0x3au8, 0x7bu8],
{
    out.push(0x7b);
    push_quoted(out, name);
    out.push(0x3a);
    out.push(0x7b);
    assert(final(out)@ =~= old(out)@ + seq![0x7bu8] + quoted(name@) + seq![0x3au8, 0x7bu8]);
}

#[verifier::rlimit(100)]
fn push_entry(out: &mut Vec<u8>, e: &HistoryEntry)
    ensures
        final(out)@ == old(out)@ + entry_payload(e@),
{
    out.push(0x7b);
    push_field_name(out, "id");
    push_i64(out, e.id);
    out.push(0x2c);
    push_field_name(out, "content_type");
    push_quoted(out, e.content_type.as_str());
    out.push(0x2c);
    push_field_name(out, "content");
    push_quoted(out, e.content.as_str());
    out.push(0x2c);
    push_field_name(out, "source");
    push_quoted(out, e.source.as_str());
    out.push(0x2c);
    push_field_name(out, "timestamp");
    push_i64(out, e.timestamp);
    out.push(0x2c);
    push_field_name(out, "checksum");
    push_quoted(out, e.checksum.as_str());
    out.push(0x7d);
    assert(final(out)@ =~= old(out)@ + entry_payload(e@));
}

/// The canonical payload bytes of a message.
#[verifier::rlimit(100)]
pub fn encode_payload(m: &Message) -> (r: Vec<u8>)
    ensures
        r@ == payload(m@),
{
    let mut out: Vec<u8> = Vec::new();
    match m {
        Message::Auth { token } => {
            push_obj_head(&mut out, "Auth");
            push_field_name(&mut out, "token");
            push_quoted(&mut out, token.as_str());
            out.push(0x7d);
            out.push(0x7d);
            assert(out@ =~= payload(m@));
        },
        Message::AuthResponse { success, message } => {
            push_obj_head(&mut out, "AuthResponse");
            push_field_name(&mut out, "success");
            push_bool(&mut out, *success);
            out.push(0x2c);
            push_field_name(&mut out, "message");
            push_quoted(&mut out, message.as_str());
            out.push(0x7d);
            out.push(0x7d);
            assert(out@ =~= payload(m@));
        },
        Message::ClipboardUpdate { content_type, content, timestamp, source, checksum } => {
            push_obj_head(&mut out, "ClipboardUpdate");
            push_field_name(&mut out, "content_type");
            push_quoted(&mut out, content_type.as_str());
            out.push(0x2c);
            push_field_name(&mut out, "content");
            push_quoted(&mut out, content.as_str());
            out.push(0x2c);
            push_field_name(&mut out, "timestamp");
            push_i64(&mut out, *timestamp);
            out.push(0x2c);
            push_field_name(&mut out, "source");
            push_quoted(&mut out, source.as_str());
            out.push(0x2c);
            push_field_name(&mut out, "checksum");
            push_quoted(&mut out, checksum.as_str());
            out.push(0x7d);
            out.push(0x7d);
            assert(out@ =~= payload(m@));
        },
        Message::ClipboardAck { checksum, success } => {
            push_obj_head(&mut out, "ClipboardAck");
            push_field_name(&mut out, "checksum");
            push_quoted(&mut out, checksum.as_str());
            out.push(0x2c);
            push_field_name(&mut out, "success");
            push_bool(&mut out, *success);
            out.push(0x7d);
            out.push(0x7d);
            assert(out@ =~= payload(m@));
        },
        Message::HistoryRequest { limit, offset } => {
            push_obj_head(&mut out, "HistoryRequest");
            push_field_name(&mut out, "limit");
            push_u64(&mut out, *limit as u64);
            out.push(0x2c);
            push_field_name(&mut out, "offset");
            push_u64(&mut out, *offset as u64);
            out.push(0x7d);
            out.push(0x7d);
            assert(out@ =~= payload(m@));
        },
        Message::HistoryResponse { entries } => {
            push_obj_head(&mut out, "HistoryResponse");
            push_field_name(&mut out, "entries");
            out.push(0x5b);
            let ghost mid = out@;
            let mut i: usize = 0;
            while i < entries.len()
                invariant
                    i <= entries@.len(),
                    out@ == mid + entries_payload(entries@.subrange(0, i as int).map_values(
                        |e: HistoryEntry| e@,
                    )),
                decreases entries@.len() - i,
            {
                if i > 0 {
                    out.push(0x2c);
                }
                let ghost before = entries@.subrange(0, i as int).map_values(
                    |e: HistoryEntry| e@,
                );
                push_entry(&mut out, &entries[i]);
                proof {
                    let after = entries@.subrange(0, i + 1).map_values(|e: HistoryEntry| e@);
                    assert(after =~= before.push(entries@[i as int]@)) by {
                        assert(entries@.subrange(0, i + 1) =~= entries@.subrange(0, i as int).push(
                            entries@[i as int],
                        ));
                    }
                    lemma_entries_payload_push(before, entries@[i as int]@);
                    if i == 0 {
                        assert(before.len() == 0);
                        assert(out@ =~= mid + entries_payload(after));
                    } else {
                        assert(before.len() > 0);
                        assert(out@ =~= mid + entries_payload(after));
                    }
                }
                i = i + 1;
            }
            assert(entries@.subrange(0, entries@.len() as int) =~= entries@);
            out.push(0x5d);
            out.push(0x7d);
            out.push(0x7d);
            assert(out@ =~= payload(m@));
        },
        Message::Ping => {
            push_quoted(&mut out, "Ping");
            assert(out@ =~= payload(m@));
        },
        Message::Pong => {
            push_quoted(&mut out, "Pong");
            assert(out@ =~= payload(m@));
        },
        Message::Error { message } => {
            push_obj_head(&mut out, "Error");
            push_field_name(&mut out, "message");
            push_quoted(&mut out, message.as_str());
            out.push(0x7d);
            out.push(0x7d);
            assert(out@ =~= payload(m@));
        },
    }
    out
}

/// Encoding a message can only fail when its payload text does not fit the
/// four-byte length prefix.
#[derive(Clone, Copy, Debug, PartialEq, Eq, Structural)]
pub enum EncodeError {
    TooLong,
}

impl Message {
    /// Serialize this message with its length prefix, ready for the stream.
    pub fn to_bytes(&self) -> (r: Result<Vec<u8>, EncodeError>)
        ensures
            r matches Ok(b) ==> b@ == frame(self@) && payload(self@).len() < 0x1_0000_0000,
            r is Err <==> payload(self@).len() >= 0x1_0000_0000,
    {
        let p = encode_payload(self);
        if (p.len() as u64) >= 0x1_0000_0000u64 {
            return Err(EncodeError::TooLong);
        }
        let mut out: Vec<u8> = Vec::new();
        push_be32(&mut out, p.len() as u32);
        push_slice(&mut out, p.as_slice());
        assert(out@ =~= frame(self@));
        Ok(out)
    }
}

// ---------------------------------------------------------------------------
// Decoding helpers
// ---------------------------------------------------------------------------
fn at_is(p: &[u8], pos: usize, v: u8) -> (r: bool)
    ensures
        r == (pos < p@.len() && p@[pos as int] == v),
{
    pos < p.len() && p[pos] == v
}

fn str_is(name: &String, lit: &str) -> (r: bool)
    ensures
        r == (name@ == lit@),
{
    let s = String::from_str(lit);
    name.eq(&s)
}

proof fn lemma_byte_prefix(c: u8, b: Seq<u8>, pos: int)
    ensures
        is_prefix_at(seq![c], b, pos) <==> (0 <= pos && pos < b.len() && b[pos] == c),
{
    if is_prefix_at(seq![c], b, pos) {
        assert(b.subrange(pos, pos + 1)[0] == c);
    }
    if 0 <= pos && pos < b.len() && b[pos] == c {
        assert(b.subrange(pos, pos + 1) =~= seq![c]);
    }
}

/// Parse one quoted string token at `pos`; accepts exactly the canonical
/// quoting of exactly one character string.
fn parse_string(p: &[u8], pos: usize) -> (r: Option<(String, usize)>)
    requires
        pos <= p@.len(),
    ensures
        r matches Some(x) ==> pos < x.1 && x.1 <= p@.len() && p@.subrange(pos as int, x.1 as int)
            == quoted(x.0@),
        forall|cs: Seq<char>|
            is_prefix_at(quoted(cs), p@, pos as int) ==> (r matches Some(x) && x.0@ == cs && x.1
                == pos + quoted(cs).len()),
{
    let ghost q = pos as int;
    if !(pos < p.len() && p[pos] == 0x22) {
        proof {
            assert forall|cs: Seq<char>| !is_prefix_at(quoted(cs), p@, q) by {
                if is_prefix_at(quoted(cs), p@, q) {
                    assert(p@.subrange(q, q + quoted(cs).len())[0] == quoted(cs)[0]);
                }
            }
        }
        return None;
    }
    proof {
        assert forall|cs: Seq<char>| is_prefix_at(quoted(cs), p@, q) implies sq_scan(
            p@,
            q + 1,
            Seq::empty(),
        ) == Some(
            (
                vstd::utf8::encode_utf8(cs),
                q + 1 + esc(vstd::utf8::encode_utf8(cs)).len() + 1,
            ),
        ) by {
            let ub = vstd::utf8::encode_utf8(cs);
            assert(quoted(cs) == (seq![0x22u8] + esc(ub)) + seq![0x22u8]) by {
                assert((seq![0x22u8] + esc(ub)) + seq![0x22u8] =~= quoted(cs));
            }
            lemma_prefix_concat(seq![0x22u8] + esc(ub), seq![0x22u8], p@, q);
            lemma_prefix_concat(seq![0x22u8], esc(ub), p@, q);
            lemma_byte_prefix(0x22, p@, q + 1 + esc(ub).len());
            lemma_sq_scan_complete(p@, q + 1, Seq::empty(), ub);
            assert(Seq::empty() + ub =~= ub);
        }
    }
    match scan_quoted(p, pos + 1) {
        None => {
            return None;
        },
        Some((ub, end)) => {
            proof {
                lemma_sq_scan_sound(p@, q + 1, Seq::empty());
            }
            match string_from_utf8(ub) {
                None => {
                    proof {
                        assert forall|cs: Seq<char>| !is_prefix_at(quoted(cs), p@, q) by {
                            if is_prefix_at(quoted(cs), p@, q) {
                                vstd::utf8::encode_utf8_valid_utf8(cs);
                            }
                        }
                    }
                    return None;
                },
                Some(s) => {
                    proof {
                        let ghost ubs = vstd::utf8::encode_utf8(s@);
                        assert(ubs.subrange(0, 0) =~= Seq::<u8>::empty());
                        assert(ubs.subrange(0, ubs.len() as int) =~= ubs);
                        assert(p@.subrange(q, q + 1) =~= seq![0x22u8]);
                        lemma_seg_glue(
                            p@,
                            q,
                            q + 1,
                            end as int,
                            seq![0x22u8],
                            esc(ubs) + seq![0x22u8],
                        );
                        assert(seq![0x22u8] + (esc(ubs) + seq![0x22u8]) =~= quoted(s@));
                        assert forall|cs: Seq<char>|
                            is_prefix_at(quoted(cs), p@, q) implies (s@ == cs && end == pos
                            + quoted(cs).len()) by {
                            assert(ubs == vstd::utf8::encode_utf8(cs));
                            vstd::utf8::encode_utf8_decode_utf8(s@);
                            vstd::utf8::encode_utf8_decode_utf8(cs);
                        }
                    }
                    return Some((s, end));
                },
            }
        },
    }
}

fn lit_true_v() -> (r: Vec<u8>)
    ensures
        r@ == bool_payload(true),
{
    let mut v: Vec<u8> = Vec::new();
    v.push(0x74);
    v.push(0x72);
    v.push(0x75);
    v.push(0x65);
    assert(v@ =~= bool_payload(true));
    v
}

fn lit_false_v() -> (r: Vec<u8>)
    ensures
        r@ == bool_payload(false),
{
    let mut v: Vec<u8> = Vec::new();
    v.push(0x66);
    v.push(0x61);
    v.push(0x6c);
    v.push(0x73);
    v.push(0x65);
    assert(v@ =~= bool_payload(false));
    v
}

/// Parse a bare `true` / `false` token.
fn parse_bool(p: &[u8], pos: usize) -> (r: Option<(bool, usize)>)
    requires
        pos <= p@.len(),
    ensures
        r matches Some(x) ==> pos < x.1 && x.1 <= p@.len() && p@.subrange(pos as int, x.1 as int)
            == bool_payload(x.0),
        forall|v: bool|
            is_prefix_at(bool_payload(v), p@, pos as int) ==> (r matches Some(x) && x.0 == v && x.1
                == pos + bool_payload(v).len()),
{
    proof {
        if is_prefix_at(bool_payload(true), p@, pos as int) && is_prefix_at(
            bool_payload(false),
            p@,
            pos as int,
        ) {
            assert(p@.subrange(pos as int, pos + 4)[0] == bool_payload(true)[0]);
            assert(p@.subrange(pos as int, pos + 5)[0] == bool_payload(false)[0]);
        }
    }
    let n = p.len();
    let lt = lit_true_v();
    if match_at(p, pos, lt.as_slice()) {
        assert(pos + 4 <= n);
        return Some((true, pos + 4));
    }
    let lf = lit_false_v();
    if match_at(p, pos, lf.as_slice()) {
        assert(pos + 5 <= n);
        return Some((false, pos + 5));
    }
    None
}

/// Parse `"fname":` and return the position after the colon.
fn parse_field_head(p: &[u8], pos: usize, fname: &str) -> (r: Option<usize>)
    requires
        pos <= p@.len(),
    ensures
        r matches Some(q) ==> pos < q && q <= p@.len() && p@.subrange(pos as int, q as int)
            == quoted(fname@) + seq![0x3au8],
        forall|v: Seq<u8>|
            is_prefix_at(field(fname@, v), p@, pos as int) ==> (r matches Some(q) && q == pos
                + quoted(fname@).len() + 1),
{
    proof {
        assert forall|v: Seq<u8>|
            is_prefix_at(field(fname@, v), p@, pos as int) implies (is_prefix_at(
            quoted(fname@),
            p@,
            pos as int,
        ) && p@.len() > pos + quoted(fname@).len() && p@[pos + quoted(fname@).len()] == 0x3a) by {
            assert(field(fname@, v) == (quoted(fname@) + seq![0x3au8]) + v) by {
                assert((quoted(fname@) + seq![0x3au8]) + v =~= field(fname@, v));
            }
            lemma_prefix_concat(quoted(fname@) + seq![0x3au8], v, p@, pos as int);
            lemma_prefix_concat(quoted(fname@), seq![0x3au8], p@, pos as int);
            lemma_byte_prefix(0x3a, p@, pos + quoted(fname@).len());
        }
    }
    let (nm, q) = match parse_string(p, pos) {
        Some(x) => x,
        None => {
            return None;
        },
    };
    if !str_is(&nm, fname) {
        return None;
    }
    if !at_is(p, q, 0x3a) {
        return None;
    }
    let n = p.len();
    assert(q < n);
    proof {
        assert(p@.subrange(q as int, q + 1) =~= seq![0x3au8]);
        lemma_seg_glue(p@, pos as int, q as int, q + 1, quoted(fname@), seq![0x3au8]);
    }
    Some(q + 1)
}

/// Parse one string-valued field `"fname":"..."`.
fn parse_field_str(p: &[u8], pos: usize, fname: &str) -> (r: Option<(String, usize)>)
    requires
        pos <= p@.len(),
    ensures
        r matches Some(x) ==> pos < x.1 && x.1 <= p@.len() && p@.subrange(pos as int, x.1 as int)
            == field(fname@, quoted(x.0@)),
        forall|cs: Seq<char>|
            is_prefix_at(field(fname@, quoted(cs)), p@, pos as int) ==> (r matches Some(x) && x.0@
                == cs && x.1 == pos + field(fname@, quoted(cs)).len()),
{
    proof {
        assert forall|cs: Seq<char>|
            is_prefix_at(field(fname@, quoted(cs)), p@, pos as int) implies is_prefix_at(
            quoted(cs),
            p@,
            pos + quoted(fname@).len() + 1,
        ) by {
            assert(field(fname@, quoted(cs)) == (quoted(fname@) + seq![0x3au8]) + quoted(cs)) by {
                assert((quoted(fname@) + seq![0x3au8]) + quoted(cs) =~= field(fname@, quoted(cs)));
            }
            lemma_prefix_concat(quoted(fname@) + seq![0x3au8], quoted(cs), p@, pos as int);
        }
    }
    let q = match parse_field_head(p, pos, fname) {
        Some(x) => x,
        None => {
            return None;
        },
    };
    let (s, e) = match parse_string(p, q) {
        Some(x) => x,
        None => {
            return None;
        },
    };
    proof {
        lemma_seg_glue(
            p@,
            pos as int,
            q as int,
            e as int,
            quoted(fname@) + seq![0x3au8],
            quoted(s@),
        );
        assert((quoted(fname@) + seq![0x3au8]) + quoted(s@) =~= field(fname@, quoted(s@)));
    }
    Some((s, e))
}

/// Parse one boolean field `"fname":true|false`.
fn parse_field_bool(p: &[u8], pos: usize, fname: &str) -> (r: Option<(bool, usize)>)
    requires
        pos <= p@.len(),
    ensures
        r matches Some(x) ==> pos < x.1 && x.1 <= p@.len() && p@.subrange(pos as int, x.1 as int)
            == field(fname@, bool_payload(x.0)),
        forall|v: bool|
            is_prefix_at(field(fname@, bool_payload(v)), p@, pos as int) ==> (r matches Some(x)
                && x.0 == v && x.1 == pos + field(fname@, bool_payload(v)).len()),
{
    proof {
        assert forall|v: bool|
            is_prefix_at(field(fname@, bool_payload(v)), p@, pos as int) implies is_prefix_at(
            bool_payload(v),
            p@,
            pos + quoted(fname@).len() + 1,
        ) by {
            assert(field(fname@, bool_payload(v)) == (quoted(fname@) + seq![0x3au8])
                + bool_payload(v)) by {
                assert((quoted(fname@) + seq![0x3au8]) + bool_payload(v) =~= field(
                    fname@,
                    bool_payload(v),
                ));
            }
            lemma_prefix_concat(quoted(fname@) + seq![0x3au8], bool_payload(v), p@, pos as int);
        }
    }
    let q = match parse_field_head(p, pos, fname) {
        Some(x) => x,
        None => {
            return None;
        },
    };
    let (b, e) = match parse_bool(p, q) {
        Some(x) => x,
        None => {
            return None;
        },
    };
    proof {
        lemma_seg_glue(
            p@,
            pos as int,
            q as int,
            e as int,
            quoted(fname@) + seq![0x3au8],
            bool_payload(b),
        );
        assert((quoted(fname@) + seq![0x3au8]) + bool_payload(b) =~= field(fname@, bool_payload(b)));
    }
    Some((b, e))
}

/// Parse one signed numeric field `"fname":-?digits`.
fn parse_field_i64(p: &[u8], pos: usize, fname: &str) -> (r: Option<(i64, usize)>)
    requires
        pos <= p@.len(),
    ensures
        r matches Some(x) ==> pos < x.1 && x.1 <= p@.len() && p@.subrange(pos as int, x.1 as int)
            == field(fname@, dec_int(x.0 as int)),
        forall|v: int|
            (-0x8000_0000_0000_0000 <= v <= 0x7fff_ffff_ffff_ffff && is_prefix_at(
                field(fname@, dec_int(v)),
                p@,
                pos as int,
            ) && (pos + field(fname@, dec_int(v)).len() == p@.len() || !is_digit(
                p@[pos + field(fname@, dec_int(v)).len()],
            ))) ==> (r matches Some(x) && x.0 == v && x.1 == pos + field(
                fname@,
                dec_int(v),
            ).len()),
{
    proof {
        assert forall|v: int|
            (-0x8000_0000_0000_0000 <= v <= 0x7fff_ffff_ffff_ffff && is_prefix_at(
                field(fname@, dec_int(v)),
                p@,
                pos as int,
            ) && (pos + field(fname@, dec_int(v)).len() == p@.len() || !is_digit(
                p@[pos + field(fname@, dec_int(v)).len()],
            ))) implies crate::codec::i64_scan(p@, pos + quoted(fname@).len() + 1) == Some(
            (v, pos + field(fname@, dec_int(v)).len()),
        ) by {
            assert(field(fname@, dec_int(v)) == (quoted(fname@) + seq![0x3au8]) + dec_int(v)) by {
                assert((quoted(fname@) + seq![0x3au8]) + dec_int(v) =~= field(fname@, dec_int(v)));
            }
            lemma_prefix_concat(quoted(fname@) + seq![0x3au8], dec_int(v), p@, pos as int);
            lemma_i64_scan_complete(p@, pos + quoted(fname@).len() + 1, v);
        }
    }
    let q = match parse_field_head(p, pos, fname) {
        Some(x) => x,
        None => {
            return None;
        },
    };
    let (v, e) = match parse_i64(p, q) {
        Some(x) => x,
        None => {
            return None;
        },
    };
    proof {
        lemma_i64_scan_sound(p@, q as int);
        lemma_seg_glue(
            p@,
            pos as int,
            q as int,
            e as int,
            quoted(fname@) + seq![0x3au8],
            dec_int(v as int),
        );
        assert((quoted(fname@) + seq![0x3au8]) + dec_int(v as int) =~= field(
            fname@,
            dec_int(v as int),
        ));
    }
    Some((v, e))
}

/// Parse one unsigned numeric field `"fname":digits` that must fit `usize`.
fn parse_field_usize(p: &[u8], pos: usize, fname: &str) -> (r: Option<(usize, usize)>)
    requires
        pos <= p@.len(),
    ensures
        r matches Some(x) ==> pos < x.1 && x.1 <= p@.len() && p@.subrange(pos as int, x.1 as int)
            == field(fname@, dec_nat(x.0 as nat)),
        forall|v: nat|
            (v <= usize::MAX && is_prefix_at(field(fname@, dec_nat(v)), p@, pos as int) && (pos
                + field(fname@, dec_nat(v)).len() == p@.len() || !is_digit(
                p@[pos + field(fname@, dec_nat(v)).len()],
            ))) ==> (r matches Some(x) && x.0 == v && x.1 == pos + field(
                fname@,
                dec_nat(v),
            ).len()),
{
    proof {
        assert forall|v: nat|
            (v <= usize::MAX && is_prefix_at(field(fname@, dec_nat(v)), p@, pos as int) && (pos
                + field(fname@, dec_nat(v)).len() == p@.len() || !is_digit(
                p@[pos + field(fname@, dec_nat(v)).len()],
            ))) implies crate::codec::u64_scan(p@, pos + quoted(fname@).len() + 1) == Some(
            (v, pos + field(fname@, dec_nat(v)).len()),
        ) by {
            assert(field(fname@, dec_nat(v)) == (quoted(fname@) + seq![0x3au8]) + dec_nat(v)) by {
                assert((quoted(fname@) + seq![0x3au8]) + dec_nat(v) =~= field(fname@, dec_nat(v)));
            }
            lemma_prefix_concat(quoted(fname@) + seq![0x3au8], dec_nat(v), p@, pos as int);
            lemma_u64_scan_complete(p@, pos + quoted(fname@).len() + 1, v);
        }
    }
    let q = match parse_field_head(p, pos, fname) {
        Some(x) => x,
        None => {
            return None;
        },
    };
    let (v, e) = match parse_u64(p, q) {
        Some(x) => x,
        None => {
            return None;
        },
    };
    if v > (usize::MAX as u64) {
        return None;
    }
    proof {
        lemma_u64_scan_sound(p@, q as int);
        lemma_seg_glue(
            p@,
            pos as int,
            q as int,
            e as int,
            quoted(fname@) + seq![0x3au8],
            dec_nat(v as nat),
        );
        assert((quoted(fname@) + seq![0x3au8]) + dec_nat(v as nat) =~= field(
            fname@,
            dec_nat(v as nat),
        ));
    }
    Some((v as usize, e))
}

/// Parse the opening `{"Name":{` of an object payload.
fn parse_obj_name(p: &[u8]) -> (r: Option<(String, usize)>)
    ensures
        r matches Some(x) ==> 1 < x.1 && x.1 <= p@.len() && p@.subrange(0, x.1 as int)
            == seq![0x7bu8] + quoted(x.0@) + seq![0x3au8, 0x7bu8],
        forall|nm: Seq<char>, inner: Seq<u8>|
            p@ == obj(nm, inner) ==> (r matches Some(x) && x.0@ == nm && x.1 == 3 + quoted(
                nm,
            ).len()),
{
    proof {
        assert forall|nm: Seq<char>, inner: Seq<u8>|
            p@ == obj(nm, inner) implies (p@.len() > 0 && p@[0] == 0x7b && is_prefix_at(
            quoted(nm),
            p@,
            1,
        ) && p@.len() > 2 + quoted(nm).len() && p@[1 + quoted(nm).len() as int] == 0x3a && p@[2 + quoted(
            nm,
        ).len() as int] == 0x7b) by {
            let a = seq![0x7bu8];
            let b = quoted(nm);
            let c = seq![0x3au8, 0x7bu8];
            let d = seq![0x7du8, 0x7du8];
            assert(obj(nm, inner) == ((((a + b) + c) + inner) + d));
            assert(is_prefix_at(obj(nm, inner), p@, 0)) by {
                assert(p@.subrange(0, p@.len() as int) =~= p@);
            }
            lemma_prefix_concat(((a + b) + c) + inner, d, p@, 0);
            lemma_prefix_concat((a + b) + c, inner, p@, 0);
            lemma_prefix_concat(a + b, c, p@, 0);
            lemma_prefix_concat(a, b, p@, 0);
            lemma_byte_prefix(0x7b, p@, 0);
            assert(p@.subrange(1 + b.len() as int, 3 + b.len() as int) =~= c) by {
                assert(is_prefix_at(c, p@, 1 + b.len() as int));
            }
            assert(p@[1 + b.len() as int] == c[0]) by {
                assert(p@.subrange(1 + b.len() as int, 3 + b.len() as int)[0] == c[0]);
            }
            assert(p@[2 + b.len() as int] == c[1]) by {
                assert(p@.subrange(1 + b.len() as int, 3 + b.len() as int)[1] == c[1]);
            }
        }
    }
    if !at_is(p, 0, 0x7b) {
        return None;
    }
    let (name, q) = match parse_string(p, 1) {
        Some(x) => x,
        None => {
            return None;
        },
    };
    let n = p.len();
    if !at_is(p, q, 0x3a) {
        return None;
    }
    assert(q < n);
    if !at_is(p, q + 1, 0x7b) {
        return None;
    }
    proof {
        assert(p@.subrange(0, 1) =~= seq![0x7bu8]);
        assert(p@.subrange(q as int, q + 2) =~= seq![0x3au8, 0x7bu8]);
        lemma_seg_glue(p@, 0, 1, q as int, seq![0x7bu8], quoted(name@));
        lemma_seg_glue(
            p@,
            0,
            q as int,
            q + 2,
            seq![0x7bu8] + quoted(name@),
            seq![0x3au8, 0x7bu8],
        );
    }
    Some((name, q + 2))
}

/// Check that exactly `}}` remains at `q`.
fn parse_tail(p: &[u8], q: usize) -> (r: bool)
    requires
        q <= p@.len(),
    ensures
        r == (q + 2 == p@.len() && p@.subrange(q as int, q + 2) == seq![0x7du8, 0x7du8]),
{
    let n = p.len();
    if q < n && p[q] == 0x7d && n - q == 2 && p[q + 1] == 0x7d {
        assert(p@.subrange(q as int, q + 2) =~= seq![0x7du8, 0x7du8]);
        true
    } else {
        proof {
            if q + 2 == p@.len() && p@.subrange(q as int, q + 2) == seq![0x7du8, 0x7du8] {
                assert(p@[q as int] == p@.subrange(q as int, q + 2)[0]);
                assert(p@[q + 1] == p@.subrange(q as int, q + 2)[1]);
            }
        }
        false
    }
}

/// Body of an `Auth` object after `{"Auth":{`.
fn parse_auth_body(p: &[u8], pos: usize) -> (r: Option<Message>)
    requires
        pos <= p@.len(),
    ensures
        r matches Some(m) ==> m@ is Auth && p@.subrange(pos as int, p@.len() as int) == obj_inner(
            m@,
        ) + seq![0x7du8, 0x7du8],
        forall|t: Seq<char>|
            p@.subrange(pos as int, p@.len() as int) == obj_inner(MessageV::Auth { token: t })
                + seq![0x7du8, 0x7du8] ==> (r matches Some(m) && m@ == (MessageV::Auth {
                token: t,
            })),
{
    let ghost n = p@.len() as int;
    proof {
        assert forall|t: Seq<char>|
            p@.subrange(pos as int, n) == obj_inner(MessageV::Auth { token: t }) + seq![
                0x7du8,
                0x7du8,
            ] implies (is_prefix_at(field("token"@, quoted(t)), p@, pos as int) && pos + field(
            "token"@,
            quoted(t),
        ).len() + 2 == n && p@.subrange(pos + field("token"@, quoted(t)).len(), n) == seq![
            0x7du8,
            0x7du8,
        ]) by {
            let f = field("token"@, quoted(t));
            let w = f + seq![0x7du8, 0x7du8];
            assert(is_prefix_at(w, p@, pos as int)) by {
                assert(pos + w.len() == n);
                assert(p@.subrange(pos as int, pos + w.len()) == w);
            }
            lemma_prefix_concat(f, seq![0x7du8, 0x7du8], p@, pos as int);
        }
    }
    let (tok, q) = match parse_field_str(p, pos, "token") {
        Some(x) => x,
        None => {
            return None;
        },
    };
    if !parse_tail(p, q) {
        return None;
    }
    let m = Message::Auth { token: tok };
    proof {
        lemma_seg_glue(
            p@,
            pos as int,
            q as int,
            q + 2,
            field("token"@, quoted(tok@)),
            seq![0x7du8, 0x7du8],
        );
    }
    Some(m)
}

/// Body of an `Error` object after `{"Error":{`.
fn parse_err_body(p: &[u8], pos: usize) -> (r: Option<Message>)
    requires
        pos <= p@.len(),
    ensures
        r matches Some(m) ==> m@ is Error && p@.subrange(pos as int, p@.len() as int) == obj_inner(
            m@,
        ) + seq![0x7du8, 0x7du8],
        forall|t: Seq<char>|
            p@.subrange(pos as int, p@.len() as int) == obj_inner(MessageV::Error { message: t })
                + seq![0x7du8, 0x7du8] ==> (r matches Some(m) && m@ == (MessageV::Error {
                message: t,
            })),
{
    let ghost n = p@.len() as int;
    proof {
        assert forall|t: Seq<char>|
            p@.subrange(pos as int, n) == obj_inner(MessageV::Error { message: t }) + seq![
                0x7du8,
                0x7du8,
            ] implies (is_prefix_at(field("message"@, quoted(t)), p@, pos as int) && pos + field(
            "message"@,
            quoted(t),
        ).len() + 2 == n && p@.subrange(pos + field("message"@, quoted(t)).len(), n) == seq![
            0x7du8,
            0x7du8,
        ]) by {
            let f = field("message"@, quoted(t));
            let w = f + seq![0x7du8, 0x7du8];
            assert(is_prefix_at(w, p@, pos as int)) by {
                assert(pos + w.len() == n);
                assert(p@.subrange(pos as int, pos + w.len()) == w);
            }
            lemma_prefix_concat(f, seq![0x7du8, 0x7du8], p@, pos as int);
        }
    }
    let (msg, q) = match parse_field_str(p, pos, "message") {
        Some(x) => x,
        None => {
            return None;
        },
    };
    if !parse_tail(p, q) {
        return None;
    }
    let m = Message::Error { message: msg };
    proof {
        lemma_seg_glue(
            p@,
            pos as int,
            q as int,
            q + 2,
            field("message"@, quoted(msg@)),
            seq![0x7du8, 0x7du8],
        );
    }
    Some(m)
}

/// Body of an `AuthResponse` object.
fn parse_authresp_body(p: &[u8], pos: usize) -> (r: Option<Message>)
    requires
        pos <= p@.len(),
    ensures
        r matches Some(m) ==> m@ is AuthResponse && p@.subrange(pos as int, p@.len() as int)
            == obj_inner(m@) + seq![0x7du8, 0x7du8],
        forall|s: bool, t: Seq<char>|
            p@.subrange(pos as int, p@.len() as int) == obj_inner(
                MessageV::AuthResponse { success: s, message: t },
            ) + seq![0x7du8, 0x7du8] ==> (r matches Some(m) && m@ == (MessageV::AuthResponse {
                success: s,
                message: t,
            })),
{
    let ghost n = p@.len() as int;
    proof {
        assert forall|s: bool, t: Seq<char>|
            p@.subrange(pos as int, n) == obj_inner(
                MessageV::AuthResponse { success: s, message: t },
            ) + seq![0x7du8, 0x7du8] implies {
            let f1 = field("success"@, bool_payload(s));
            let f2 = field("message"@, quoted(t));
            &&& is_prefix_at(f1, p@, pos as int)
            &&& p@[pos + f1.len()] == 0x2c
            &&& is_prefix_at(f2, p@, pos + f1.len() + 1)
            &&& pos + f1.len() + 1 + f2.len() + 2 == n
            &&& p@.subrange(pos + f1.len() + 1 + f2.len(), n) == seq![0x7du8, 0x7du8]
        } by {
            let f1 = field("success"@, bool_payload(s));
            let f2 = field("message"@, quoted(t));
            let w = ((f1 + seq![0x2cu8]) + f2) + seq![0x7du8, 0x7du8];
            assert(w =~= obj_inner(MessageV::AuthResponse { success: s, message: t }) + seq![
                0x7du8,
                0x7du8,
            ]);
            assert(is_prefix_at(w, p@, pos as int)) by {
                assert(pos + w.len() == n);
                assert(p@.subrange(pos as int, pos + w.len()) == w);
            }
            lemma_prefix_concat((f1 + seq![0x2cu8]) + f2, seq![0x7du8, 0x7du8], p@, pos as int);
            lemma_prefix_concat(f1 + seq![0x2cu8], f2, p@, pos as int);
            lemma_prefix_concat(f1, seq![0x2cu8], p@, pos as int);
            lemma_byte_prefix(0x2c, p@, pos + f1.len());
        }
    }
    let (suc, q1) = match parse_field_bool(p, pos, "success") {
        Some(x) => x,
        None => {
            return None;
        },
    };
    if !at_is(p, q1, 0x2c) {
        return None;
    }
    let n1 = p.len();
    assert(q1 < n1);
    let (msg, q2) = match parse_field_str(p, q1 + 1, "message") {
        Some(x) => x,
        None => {
            return None;
        },
    };
    if !parse_tail(p, q2) {
        return None;
    }
    let m = Message::AuthResponse { success: suc, message: msg };
    proof {
        let f1 = field("success"@, bool_payload(suc));
        let f2 = field("message"@, quoted(msg@));
        assert(p@.subrange(q1 as int, q1 + 1) =~= seq![0x2cu8]);
        lemma_seg_glue(p@, pos as int, q1 as int, q1 + 1, f1, seq![0x2cu8]);
        lemma_seg_glue(p@, pos as int, q1 + 1, q2 as int, f1 + seq![0x2cu8], f2);
        lemma_seg_glue(
            p@,
            pos as int,
            q2 as int,
            q2 + 2,
            (f1 + seq![0x2cu8]) + f2,
            seq![0x7du8, 0x7du8],
        );
        assert(((f1 + seq![0x2cu8]) + f2) + seq![0x7du8, 0x7du8] =~= obj_inner(m@) + seq![
            0x7du8,
            0x7du8,
        ]);
    }
    Some(m)
}

/// Body of a `ClipboardAck` object.
fn parse_ack_body(p: &[u8], pos: usize) -> (r: Option<Message>)
    requires
        pos <= p@.len(),
    ensures
        r matches Some(m) ==> m@ is ClipboardAck && p@.subrange(pos as int, p@.len() as int)
            == obj_inner(m@) + seq![0x7du8, 0x7du8],
        forall|c: Seq<char>, s: bool|
            p@.subrange(pos as int, p@.len() as int) == obj_inner(
                MessageV::ClipboardAck { checksum: c, success: s },
            ) + seq![0x7du8, 0x7du8] ==> (r matches Some(m) && m@ == (MessageV::ClipboardAck {
                checksum: c,
                success: s,
            })),
{
    let ghost n = p@.len() as int;
    proof {
        assert forall|c: Seq<char>, s: bool|
            p@.subrange(pos as int, n) == obj_inner(
                MessageV::ClipboardAck { checksum: c, success: s },
            ) + seq![0x7du8, 0x7du8] implies {
            let f1 = field("checksum"@, quoted(c));
            let f2 = field("success"@, bool_payload(s));
            &&& is_prefix_at(f1, p@, pos as int)
            &&& p@[pos + f1.len()] == 0x2c
            &&& is_prefix_at(f2, p@, pos + f1.len() + 1)
            &&& pos + f1.len() + 1 + f2.len() + 2 == n
            &&& p@.subrange(pos + f1.len() + 1 + f2.len(), n) == seq![0x7du8, 0x7du8]
        } by {
            let f1 = field("checksum"@, quoted(c));
            let f2 = field("success"@, bool_payload(s));
            let w = ((f1 + seq![0x2cu8]) + f2) + seq![0x7du8, 0x7du8];
            assert(w =~= obj_inner(MessageV::ClipboardAck { checksum: c, success: s }) + seq![
                0x7du8,
                0x7du8,
            ]);
            assert(is_prefix_at(w, p@, pos as int)) by {
                assert(pos + w.len() == n);
                assert(p@.subrange(pos as int, pos + w.len()) == w);
            }
            lemma_prefix_concat((f1 + seq![0x2cu8]) + f2, seq![0x7du8, 0x7du8], p@, pos as int);
            lemma_prefix_concat(f1 + seq![0x2cu8], f2, p@, pos as int);
            lemma_prefix_concat(f1, seq![0x2cu8], p@, pos as int);
            lemma_byte_prefix(0x2c, p@, pos + f1.len());
        }
    }
    let (ck, q1) = match parse_field_str(p, pos, "checksum") {
        Some(x) => x,
        None => {
            return None;
        },
    };
    if !at_is(p, q1, 0x2c) {
        return None;
    }
    let n1 = p.len();
    assert(q1 < n1);
    let (suc, q2) = match parse_field_bool(p, q1 + 1, "success") {
        Some(x) => x,
        None => {
            return None;
        },
    };
    if !parse_tail(p, q2) {
        return None;
    }
    let m = Message::ClipboardAck { checksum: ck, success: suc };
    proof {
        let f1 = field("checksum"@, quoted(ck@));
        let f2 = field("success"@, bool_payload(suc));
        assert(p@.subrange(q1 as int, q1 + 1) =~= seq![0x2cu8]);
        lemma_seg_glue(p@, pos as int, q1 as int, q1 + 1, f1, seq![0x2cu8]);
        lemma_seg_glue(p@, pos as int, q1 + 1, q2 as int, f1 + seq![0x2cu8], f2);
        lemma_seg_glue(
            p@,
            pos as int,
            q2 as int,
            q2 + 2,
            (f1 + seq![0x2cu8]) + f2,
            seq![0x7du8, 0x7du8],
        );
        assert(((f1 + seq![0x2cu8]) + f2) + seq![0x7du8, 0x7du8] =~= obj_inner(m@) + seq![
            0x7du8,
            0x7du8,
        ]);
    }
    Some(m)
}

/// Body of a `HistoryRequest` object.
fn parse_histreq_body(p: &[u8], pos: usize) -> (r: Option<Message>)
    requires
        pos <= p@.len(),
    ensures
        r matches Some(m) ==> m@ is HistoryRequest && wf_msg(m@) && p@.subrange(
            pos as int,
            p@.len() as int,
        ) == obj_inner(m@) + seq![0x7du8, 0x7du8],
        forall|l: nat, o: nat|
            (l <= usize::MAX && o <= usize::MAX && p@.subrange(pos as int, p@.len() as int)
                == obj_inner(MessageV::HistoryRequest { limit: l, offset: o }) + seq![
                0x7du8,
                0x7du8,
            ]) ==> (r matches Some(m) && m@ == (MessageV::HistoryRequest { limit: l, offset: o })),
{
    let ghost n = p@.len() as int;
    proof {
        assert forall|l: nat, o: nat|
            (l <= usize::MAX && o <= usize::MAX && p@.subrange(pos as int, n) == obj_inner(
                MessageV::HistoryRequest { limit: l, offset: o },
            ) + seq![0x7du8, 0x7du8]) implies {
            let f1 = field("limit"@, dec_nat(l));
            let f2 = field("offset"@, dec_nat(o));
            &&& is_prefix_at(f1, p@, pos as int)
            &&& p@[pos + f1.len()] == 0x2c
            &&& !is_digit(p@[pos + f1.len()])
            &&& is_prefix_at(f2, p@, pos + f1.len() + 1)
            &&& pos + f1.len() + 1 + f2.len() + 2 == n
            &&& p@.subrange(pos + f1.len() + 1 + f2.len(), n) == seq![0x7du8, 0x7du8]
            &&& p@[pos + f1.len() + 1 + f2.len()] == 0x7d
            &&& !is_digit(p@[pos + f1.len() + 1 + f2.len()])
        } by {
            let f1 = field("limit"@, dec_nat(l));
            let f2 = field("offset"@, dec_nat(o));
            let w = ((f1 + seq![0x2cu8]) + f2) + seq![0x7du8, 0x7du8];
            assert(w =~= obj_inner(MessageV::HistoryRequest { limit: l, offset: o }) + seq![
                0x7du8,
                0x7du8,
            ]);
            assert(is_prefix_at(w, p@, pos as int)) by {
                assert(pos + w.len() == n);
                assert(p@.subrange(pos as int, pos + w.len()) == w);
            }
            lemma_prefix_concat((f1 + seq![0x2cu8]) + f2, seq![0x7du8, 0x7du8], p@, pos as int);
            lemma_prefix_concat(f1 + seq![0x2cu8], f2, p@, pos as int);
            lemma_prefix_concat(f1, seq![0x2cu8], p@, pos as int);
            lemma_byte_prefix(0x2c, p@, pos + f1.len());
            assert(p@[pos + f1.len() + 1 + f2.len()] == 0x7d) by {
                assert(p@.subrange(pos + f1.len() + 1 + f2.len(), n)[0] == 0x7d);
            }
        }
    }
    let (limit, q1) = match parse_field_usize(p, pos, "limit") {
        Some(x) => x,
        None => {
            return None;
        },
    };
    if !at_is(p, q1, 0x2c) {
        return None;
    }
    let n1 = p.len();
    assert(q1 < n1);
    let (offset, q2) = match parse_field_usize(p, q1 + 1, "offset") {
        Some(x) => x,
        None => {
            return None;
        },
    };
    if !parse_tail(p, q2) {
        return None;
    }
    let m = Message::HistoryRequest { limit, offset };
    proof {
        let f1 = field("limit"@, dec_nat(limit as nat));
        let f2 = field("offset"@, dec_nat(offset as nat));
        assert(p@.subrange(q1 as int, q1 + 1) =~= seq![0x2cu8]);
        lemma_seg_glue(p@, pos as int, q1 as int, q1 + 1, f1, seq![0x2cu8]);
        lemma_seg_glue(p@, pos as int, q1 + 1, q2 as int, f1 + seq![0x2cu8], f2);
        lemma_seg_glue(
            p@,
            pos as int,
            q2 as int,
            q2 + 2,
            (f1 + seq![0x2cu8]) + f2,
            seq![0x7du8, 0x7du8],
        );
        assert(((f1 + seq![0x2cu8]) + f2) + seq![0x7du8, 0x7du8] =~= obj_inner(m@) + seq![
            0x7du8,
            0x7du8,
        ]);
    }
    Some(m)
}

/// Decomposition of a `ClipboardUpdate` body at `pos`.
#[verifier::rlimit(100)]
proof fn lemma_upd_decomp(
    b: Seq<u8>,
    pos: int,
    ct: Seq<char>,
    co: Seq<char>,
    ts: int,
    so: Seq<char>,
    ck: Seq<char>,
)
    requires
        0 <= pos <= b.len(),
        b.subrange(pos, b.len() as int) == obj_inner(
            MessageV::ClipboardUpdate {
                content_type: ct,
                content: co,
                timestamp: ts,
                source: so,
                checksum: ck,
            },
        ) + seq![0x7du8, 0x7du8],
    ensures
        ({
            let f1 = field("content_type"@, quoted(ct));
            let f2 = field("content"@, quoted(co));
            let f3 = field("timestamp"@, dec_int(ts));
            let f4 = field("source"@, quoted(so));
            let f5 = field("checksum"@, quoted(ck));
            let p1 = pos + f1.len();
            let p2 = p1 + 1 + f2.len();
            let p3 = p2 + 1 + f3.len();
            let p4 = p3 + 1 + f4.len();
            let p5 = p4 + 1 + f5.len();
            &&& is_prefix_at(f1, b, pos)
            &&& b[p1] == 0x2c
            &&& is_prefix_at(f2, b, p1 + 1)
            &&& b[p2] == 0x2c
            &&& is_prefix_at(f3, b, p2 + 1)
            &&& b[p3] == 0x2c
            &&& !is_digit(b[p3])
            &&& is_prefix_at(f4, b, p3 + 1)
            &&& b[p4] == 0x2c
            &&& is_prefix_at(f5, b, p4 + 1)
            &&& p5 + 2 == b.len()
            &&& b.subrange(p5, b.len() as int) == seq![0x7du8, 0x7du8]
        }),
{
    let f1 = field("content_type"@, quoted(ct));
    let f2 = field("content"@, quoted(co));
    let f3 = field("timestamp"@, dec_int(ts));
    let f4 = field("source"@, quoted(so));
    let f5 = field("checksum"@, quoted(ck));
    let c = seq![0x2cu8];
    let w = ((((((((f1 + c) + f2) + c) + f3) + c) + f4) + c) + f5) + seq![0x7du8, 0x7du8];
    assert(w =~= obj_inner(
        MessageV::ClipboardUpdate {
            content_type: ct,
            content: co,
            timestamp: ts,
            source: so,
            checksum: ck,
        },
    ) + seq![0x7du8, 0x7du8]);
    assert(is_prefix_at(w, b, pos)) by {
        assert(pos + w.len() == b.len());
        assert(b.subrange(pos, pos + w.len()) == w);
    }
    lemma_prefix_concat(
        (((((((f1 + c) + f2) + c) + f3) + c) + f4) + c) + f5,
        seq![0x7du8, 0x7du8],
        b,
        pos,
    );
    lemma_prefix_concat(((((((f1 + c) + f2) + c) + f3) + c) + f4) + c, f5, b, pos);
    lemma_prefix_concat((((((f1 + c) + f2) + c) + f3) + c) + f4, c, b, pos);
    lemma_prefix_concat(((((f1 + c) + f2) + c) + f3) + c, f4, b, pos);
    lemma_prefix_concat((((f1 + c) + f2) + c) + f3, c, b, pos);
    lemma_prefix_concat(((f1 + c) + f2) + c, f3, b, pos);
    lemma_prefix_concat((f1 + c) + f2, c, b, pos);
    lemma_prefix_concat(f1 + c, f2, b, pos);
    lemma_prefix_concat(f1, c, b, pos);
    lemma_byte_prefix(0x2c, b, pos + f1.len());
    lemma_byte_prefix(0x2c, b, pos + f1.len() + 1 + f2.len());
    lemma_byte_prefix(0x2c, b, pos + f1.len() + 1 + f2.len() + 1 + f3.len());
    lemma_byte_prefix(0x2c, b, pos + f1.len() + 1 + f2.len() + 1 + f3.len() + 1 + f4.len());
}

/// Assembly of a `ClipboardUpdate` body from its parsed segments.
#[verifier::rlimit(100)]
proof fn lemma_upd_glue(
    b: Seq<u8>,
    pos: int,
    q1: int,
    q2: int,
    q3: int,
    q4: int,
    q5: int,
    ct: Seq<char>,
    co: Seq<char>,
    ts: int,
    so: Seq<char>,
    ck: Seq<char>,
)
    requires
        0 <= pos <= q1,
        q1 + 1 <= q2,
        q2 + 1 <= q3,
        q3 + 1 <= q4,
        q4 + 1 <= q5,
        q5 + 2 == b.len(),
        b.subrange(pos, q1) == field("content_type"@, quoted(ct)),
        b[q1] == 0x2c,
        b.subrange(q1 + 1, q2) == field("content"@, quoted(co)),
        b[q2] == 0x2c,
        b.subrange(q2 + 1, q3) == field("timestamp"@, dec_int(ts)),
        b[q3] == 0x2c,
        b.subrange(q3 + 1, q4) == field("source"@, quoted(so)),
        b[q4] == 0x2c,
        b.subrange(q4 + 1, q5) == field("checksum"@, quoted(ck)),
        b.subrange(q5, b.len() as int) == seq![0x7du8, 0x7du8],
    ensures
        b.subrange(pos, b.len() as int) == obj_inner(
            MessageV::ClipboardUpdate {
                content_type: ct,
                content: co,
                timestamp: ts,
                source: so,
                checksum: ck,
            },
        ) + seq![0x7du8, 0x7du8],
{
    let f1 = field("content_type"@, quoted(ct));
    let f2 = field("content"@, quoted(co));
    let f3 = field("timestamp"@, dec_int(ts));
    let f4 = field("source"@, quoted(so));
    let f5 = field("checksum"@, quoted(ck));
    let c = seq![0x2cu8];
    assert(b.subrange(q1, q1 + 1) =~= c);
    assert(b.subrange(q2, q2 + 1) =~= c);
    assert(b.subrange(q3, q3 + 1) =~= c);
    assert(b.subrange(q4, q4 + 1) =~= c);
    lemma_seg_glue(b, pos, q1, q1 + 1, f1, c);
    lemma_seg_glue(b, pos, q1 + 1, q2, f1 + c, f2);
    lemma_seg_glue(b, pos, q2, q2 + 1, (f1 + c) + f2, c);
    lemma_seg_glue(b, pos, q2 + 1, q3, ((f1 + c) + f2) + c, f3);
    lemma_seg_glue(b, pos, q3, q3 + 1, (((f1 + c) + f2) + c) + f3, c);
    lemma_seg_glue(b, pos, q3 + 1, q4, ((((f1 + c) + f2) + c) + f3) + c, f4);
    lemma_seg_glue(b, pos, q4, q4 + 1, (((((f1 + c) + f2) + c) + f3) + c) + f4, c);
    lemma_seg_glue(b, pos, q4 + 1, q5, ((((((f1 + c) + f2) + c) + f3) + c) + f4) + c, f5);
    lemma_seg_glue(
        b,
        pos,
        q5,
        q5 + 2,
        (((((((f1 + c) + f2) + c) + f3) + c) + f4) + c) + f5,
        seq![0x7du8, 0x7du8],
    );
    assert(((((((((f1 + c) + f2) + c) + f3) + c) + f4) + c) + f5) + seq![0x7du8, 0x7du8]
        =~= obj_inner(
        MessageV::ClipboardUpdate {
            content_type: ct,
            content: co,
            timestamp: ts,
            source: so,
            checksum: ck,
        },
    ) + seq![0x7du8, 0x7du8]);
}

/// Body of a `ClipboardUpdate` object.
#[verifier::rlimit(100)]
fn parse_upd_body(p: &[u8], pos: usize) -> (r: Option<Message>)
    requires
        pos <= p@.len(),
    ensures
        r matches Some(m) ==> m@ is ClipboardUpdate && wf_msg(m@) && p@.subrange(
            pos as int,
            p@.len() as int,
        ) == obj_inner(m@) + seq![0x7du8, 0x7du8],
        forall|ct: Seq<char>, co: Seq<char>, ts: int, so: Seq<char>, ck: Seq<char>|
            (-0x8000_0000_0000_0000 <= ts <= 0x7fff_ffff_ffff_ffff && p@.subrange(
                pos as int,
                p@.len() as int,
            ) == obj_inner(
                MessageV::ClipboardUpdate {
                    content_type: ct,
                    content: co,
                    timestamp: ts,
                    source: so,
                    checksum: ck,
                },
            ) + seq![0x7du8, 0x7du8]) ==> (r matches Some(m) && m@ == (MessageV::ClipboardUpdate {
                content_type: ct,
                content: co,
                timestamp: ts,
                source: so,
                checksum: ck,
            })),
{
    let ghost n = p@.len() as int;
    proof {
        assert forall|ct: Seq<char>, co: Seq<char>, ts: int, so: Seq<char>, ck: Seq<char>|
            (-0x8000_0000_0000_0000 <= ts <= 0x7fff_ffff_ffff_ffff && p@.subrange(pos as int, n)
                == obj_inner(
                MessageV::ClipboardUpdate {
                    content_type: ct,
                    content: co,
                    timestamp: ts,
                    source: so,
                    checksum: ck,
                },
            ) + seq![0x7du8, 0x7du8]) implies {
            let f1 = field("content_type"@, quoted(ct));
            let f2 = field("content"@, quoted(co));
            let f3 = field("timestamp"@, dec_int(ts));
            let f4 = field("source"@, quoted(so));
            let f5 = field("checksum"@, quoted(ck));
            let p1 = pos + f1.len();
            let p2 = p1 + 1 + f2.len();
            let p3 = p2 + 1 + f3.len();
            let p4 = p3 + 1 + f4.len();
            let p5 = p4 + 1 + f5.len();
            &&& is_prefix_at(f1, p@, pos as int)
            &&& p@[p1] == 0x2c
            &&& is_prefix_at(f2, p@, p1 + 1)
            &&& p@[p2] == 0x2c
            &&& is_prefix_at(f3, p@, p2 + 1)
            &&& p@[p3] == 0x2c
            &&& !is_digit(p@[p3])
            &&& is_prefix_at(f4, p@, p3 + 1)
            &&& p@[p4] == 0x2c
            &&& is_prefix_at(f5, p@, p4 + 1)
            &&& p5 + 2 == n
            &&& p@.subrange(p5, n) == seq![0x7du8, 0x7du8]
        } by {
            lemma_upd_decomp(p@, pos as int, ct, co, ts, so, ck);
        }
    }
    let (ct, q1) = match parse_field_str(p, pos, "content_type") {
        Some(x) => x,
        None => {
            return None;
        },
    };
    if !at_is(p, q1, 0x2c) {
        return None;
    }
    let n1 = p.len();
    assert(q1 < n1);
    let (co, q2) = match parse_field_str(p, q1 + 1, "content") {
        Some(x) => x,
        None => {
            return None;
        },
    };
    if !at_is(p, q2, 0x2c) {
        return None;
    }
    assert(q2 < n1);
    let (ts, q3) = match parse_field_i64(p, q2 + 1, "timestamp") {
        Some(x) => x,
        None => {
            return None;
        },
    };
    if !at_is(p, q3, 0x2c) {
        return None;
    }
    assert(q3 < n1);
    let (so, q4) = match parse_field_str(p, q3 + 1, "source") {
        Some(x) => x,
        None => {
            return None;
        },
    };
    if !at_is(p, q4, 0x2c) {
        return None;
    }
    assert(q4 < n1);
    let (ck, q5) = match parse_field_str(p, q4 + 1, "checksum") {
        Some(x) => x,
        None => {
            return None;
        },
    };
    if !parse_tail(p, q5) {
        return None;
    }
    let m = Message::ClipboardUpdate {
        content_type: ct,
        content: co,
        timestamp: ts,
        source: so,
        checksum: ck,
    };
    proof {
        lemma_upd_glue(
            p@,
            pos as int,
            q1 as int,
            q2 as int,
            q3 as int,
            q4 as int,
            q5 as int,
            ct@,
            co@,
            ts as int,
            so@,
            ck@,
        );
    }
    Some(m)
}

/// Decomposition of one entry object at `pos`.
#[verifier::rlimit(100)]
proof fn lemma_entry_decomp(b: Seq<u8>, pos: int, ev: HistoryEntryV)
    requires
        0 <= pos,
        is_prefix_at(entry_payload(ev), b, pos),
    ensures
        ({
            let f1 = field("id"@, dec_int(ev.id));
            let f2 = field("content_type"@, quoted(ev.content_type));
            let f3 = field("content"@, quoted(ev.content));
            let f4 = field("source"@, quoted(ev.source));
            let f5 = field("timestamp"@, dec_int(ev.timestamp));
            let f6 = field("checksum"@, quoted(ev.checksum));
            let p1 = pos + 1 + f1.len();
            let p2 = p1 + 1 + f2.len();
            let p3 = p2 + 1 + f3.len();
            let p4 = p3 + 1 + f4.len();
            let p5 = p4 + 1 + f5.len();
            let p6 = p5 + 1 + f6.len();
            &&& b[pos] == 0x7b
            &&& is_prefix_at(f1, b, pos + 1)
            &&& b[p1] == 0x2c && !is_digit(b[p1])
            &&& is_prefix_at(f2, b, p1 + 1)
            &&& b[p2] == 0x2c
            &&& is_prefix_at(f3, b, p2 + 1)
            &&& b[p3] == 0x2c
            &&& is_prefix_at(f4, b, p3 + 1)
            &&& b[p4] == 0x2c
            &&& is_prefix_at(f5, b, p4 + 1)
            &&& b[p5] == 0x2c && !is_digit(b[p5])
            &&& is_prefix_at(f6, b, p5 + 1)
            &&& b[p6] == 0x7d
            &&& p6 + 1 == pos + entry_payload(ev).len()
            &&& p6 + 1 <= b.len()
        }),
{
    let f1 = field("id"@, dec_int(ev.id));
    let f2 = field("content_type"@, quoted(ev.content_type));
    let f3 = field("content"@, quoted(ev.content));
    let f4 = field("source"@, quoted(ev.source));
    let f5 = field("timestamp"@, dec_int(ev.timestamp));
    let f6 = field("checksum"@, quoted(ev.checksum));
    let c = seq![0x2cu8];
    let o = seq![0x7bu8];
    let z = seq![0x7du8];
    let w = ((((((((((((o + f1) + c) + f2) + c) + f3) + c) + f4) + c) + f5) + c) + f6) + z);
    assert(w =~= entry_payload(ev));
    assert(is_prefix_at(w, b, pos));
    lemma_prefix_concat((((((((((((o + f1) + c) + f2) + c) + f3) + c) + f4) + c) + f5) + c) + f6), z, b, pos);
    lemma_prefix_concat(((((((((((o + f1) + c) + f2) + c) + f3) + c) + f4) + c) + f5) + c), f6, b, pos);
    lemma_prefix_concat((((((((((o + f1) + c) + f2) + c) + f3) + c) + f4) + c) + f5), c, b, pos);
    lemma_prefix_concat(((((((((o + f1) + c) + f2) + c) + f3) + c) + f4) + c), f5, b, pos);
    lemma_prefix_concat((((((((o + f1) + c) + f2) + c) + f3) + c) + f4), c, b, pos);
    lemma_prefix_concat((((((o + f1) + c) + f2) + c) + f3) + c, f4, b, pos);
    lemma_prefix_concat(((((o + f1) + c) + f2) + c) + f3, c, b, pos);
    lemma_prefix_concat((((o + f1) + c) + f2) + c, f3, b, pos);
    lemma_prefix_concat(((o + f1) + c) + f2, c, b, pos);
    lemma_prefix_concat((o + f1) + c, f2, b, pos);
    lemma_prefix_concat(o + f1, c, b, pos);
    lemma_prefix_concat(o, f1, b, pos);
    lemma_byte_prefix(0x7b, b, pos);
    lemma_byte_prefix(0x2c, b, pos + 1 + f1.len());
    lemma_byte_prefix(0x2c, b, pos + 1 + f1.len() + 1 + f2.len());
    lemma_byte_prefix(0x2c, b, pos + 1 + f1.len() + 1 + f2.len() + 1 + f3.len());
    lemma_byte_prefix(0x2c, b, pos + 1 + f1.len() + 1 + f2.len() + 1 + f3.len() + 1 + f4.len());
    lemma_byte_prefix(
        0x2c,
        b,
        pos + 1 + f1.len() + 1 + f2.len() + 1 + f3.len() + 1 + f4.len() + 1 + f5.len(),
    );
    lemma_byte_prefix(
        0x7d,
        b,
        pos + 1 + f1.len() + 1 + f2.len() + 1 + f3.len() + 1 + f4.len() + 1 + f5.len() + 1
            + f6.len(),
    );
}

/// Assembly of one entry object from its parsed segments.
#[verifier::rlimit(100)]
proof fn lemma_entry_glue(
    b: Seq<u8>,
    pos: int,
    q1: int,
    q2: int,
    q3: int,
    q4: int,
    q5: int,
    q6: int,
    ev: HistoryEntryV,
)
    requires
        0 <= pos,
        pos + 1 <= q1,
        q1 + 1 <= q2,
        q2 + 1 <= q3,
        q3 + 1 <= q4,
        q4 + 1 <= q5,
        q5 + 1 <= q6,
        q6 + 1 <= b.len(),
        b[pos] == 0x7b,
        b.subrange(pos + 1, q1) == field("id"@, dec_int(ev.id)),
        b[q1] == 0x2c,
        b.subrange(q1 + 1, q2) == field("content_type"@, quoted(ev.content_type)),
        b[q2] == 0x2c,
        b.subrange(q2 + 1, q3) == field("content"@, quoted(ev.content)),
        b[q3] == 0x2c,
        b.subrange(q3 + 1, q4) == field("source"@, quoted(ev.source)),
        b[q4] == 0x2c,
        b.subrange(q4 + 1, q5) == field("timestamp"@, dec_int(ev.timestamp)),
        b[q5] == 0x2c,
        b.subrange(q5 + 1, q6) == field("checksum"@, quoted(ev.checksum)),
        b[q6] == 0x7d,
    ensures
        b.subrange(pos, q6 + 1) == entry_payload(ev),
{
    let f1 = field("id"@, dec_int(ev.id));
    let f2 = field("content_type"@, quoted(ev.content_type));
    let f3 = field("content"@, quoted(ev.content));
    let f4 = field("source"@, quoted(ev.source));
    let c = seq![0x2cu8];
    let o = seq![0x7bu8];
    let z = seq![0x7du8];
    assert(b.subrange(pos, pos + 1) =~= o);
    assert(b.subrange(q1, q1 + 1) =~= c);
    assert(b.subrange(q2, q2 + 1) =~= c);
    assert(b.subrange(q3, q3 + 1) =~= c);
    assert(b.subrange(q4, q4 + 1) =~= c);
    assert(b.subrange(q5, q5 + 1) =~= c);
    assert(b.subrange(q6, q6 + 1) =~= z);
    let g1 = o + f1;
    lemma_seg_glue(b, pos, pos + 1, q1, o, f1);
    let g2 = g1 + c;
    lemma_seg_glue(b, pos, q1, q1 + 1, g1, c);
    let g3 = g2 + f2;
    lemma_seg_glue(b, pos, q1 + 1, q2, g2, f2);
    let g4 = g3 + c;
    lemma_seg_glue(b, pos, q2, q2 + 1, g3, c);
    let g5 = g4 + f3;
    lemma_seg_glue(b, pos, q2 + 1, q3, g4, f3);
    let g6 = g5 + c;
    lemma_seg_glue(b, pos, q3, q3 + 1, g5, c);
    let g7 = g6 + f4;
    lemma_seg_glue(b, pos, q3 + 1, q4, g6, f4);
    let g8 = g7 + c;
    lemma_seg_glue(b, pos, q4, q4 + 1, g7, c);
    let g9 = g8 + field("timestamp"@, dec_int(ev.timestamp));
    lemma_seg_glue(b, pos, q4 + 1, q5, g8, field("timestamp"@, dec_int(ev.timestamp)));
    let g10 = g9 + c;
    lemma_seg_glue(b, pos, q5, q5 + 1, g9, c);
    let g11 = g10 + field("checksum"@, quoted(ev.checksum));
    lemma_seg_glue(b, pos, q5 + 1, q6, g10, field("checksum"@, quoted(ev.checksum)));
    lemma_seg_glue(b, pos, q6, q6 + 1, g11, z);
    assert(g11 + z =~= entry_payload(ev));
}

/// Parse one history entry object.
#[verifier::rlimit(100)]
fn parse_entry(p: &[u8], pos: usize) -> (r: Option<(HistoryEntry, usize)>)
    requires
        pos <= p@.len(),
    ensures
        r matches Some(x) ==> pos < x.1 && x.1 <= p@.len() && wf_entry(x.0@) && p@.subrange(
            pos as int,
            x.1 as int,
        ) == entry_payload(x.0@),
        forall|ev: HistoryEntryV|
            (wf_entry(ev) && is_prefix_at(entry_payload(ev), p@, pos as int)) ==> (r matches Some(
                x,
            ) && x.0@ == ev && x.1 == pos + entry_payload(ev).len()),
{
    proof {
        assert forall|ev: HistoryEntryV|
            (wf_entry(ev) && is_prefix_at(entry_payload(ev), p@, pos as int)) implies {
            let f1 = field("id"@, dec_int(ev.id));
            let f2 = field("content_type"@, quoted(ev.content_type));
            let f3 = field("content"@, quoted(ev.content));
            let f4 = field("source"@, quoted(ev.source));
            let f5 = field("timestamp"@, dec_int(ev.timestamp));
            let f6 = field("checksum"@, quoted(ev.checksum));
            let p1 = pos + 1 + f1.len();
            let p2 = p1 + 1 + f2.len();
            let p3 = p2 + 1 + f3.len();
            let p4 = p3 + 1 + f4.len();
            let p5 = p4 + 1 + f5.len();
            let p6 = p5 + 1 + f6.len();
            &&& p@[pos as int] == 0x7b
            &&& is_prefix_at(f1, p@, pos + 1)
            &&& p@[p1] == 0x2c && !is_digit(p@[p1])
            &&& is_prefix_at(f2, p@, p1 + 1)
            &&& p@[p2] == 0x2c
            &&& is_prefix_at(f3, p@, p2 + 1)
            &&& p@[p3] == 0x2c
            &&& is_prefix_at(f4, p@, p3 + 1)
            &&& p@[p4] == 0x2c
            &&& is_prefix_at(f5, p@, p4 + 1)
            &&& p@[p5] == 0x2c && !is_digit(p@[p5])
            &&& is_prefix_at(f6, p@, p5 + 1)
            &&& p@[p6] == 0x7d
            &&& p6 + 1 == pos + entry_payload(ev).len()
            &&& p6 + 1 <= p@.len()
        } by {
            lemma_entry_decomp(p@, pos as int, ev);
        }
    }
    let n0 = p.len();
    if !at_is(p, pos, 0x7b) {
        return None;
    }
    assert(pos < n0);
    let (id, q1) = match parse_field_i64(p, pos + 1, "id") {
        Some(x) => x,
        None => {
            return None;
        },
    };
    if !at_is(p, q1, 0x2c) {
        return None;
    }
    assert(q1 < n0);
    let (ct, q2) = match parse_field_str(p, q1 + 1, "content_type") {
        Some(x) => x,
        None => {
            return None;
        },
    };
    if !at_is(p, q2, 0x2c) {
        return None;
    }
    assert(q2 < n0);
    let (co, q3) = match parse_field_str(p, q2 + 1, "content") {
        Some(x) => x,
        None => {
            return None;
        },
    };
    if !at_is(p, q3, 0x2c) {
        return None;
    }
    assert(q3 < n0);
    let (so, q4) = match parse_field_str(p, q3 + 1, "source") {
        Some(x) => x,
        None => {
            return None;
        },
    };
    if !at_is(p, q4, 0x2c) {
        return None;
    }
    assert(q4 < n0);
    let (ts, q5) = match parse_field_i64(p, q4 + 1, "timestamp") {
        Some(x) => x,
        None => {
            return None;
        },
    };
    if !at_is(p, q5, 0x2c) {
        return None;
    }
    assert(q5 < n0);
    let (ck, q6) = match parse_field_str(p, q5 + 1, "checksum") {
        Some(x) => x,
        None => {
            return None;
        },
    };
    if !at_is(p, q6, 0x7d) {
        return None;
    }
    assert(q6 < n0);
    let e = HistoryEntry {
        id,
        content_type: ct,
        content: co,
        source: so,
        timestamp: ts,
        checksum: ck,
    };
    proof {
        lemma_entry_glue(
            p@,
            pos as int,
            q1 as int,
            q2 as int,
            q3 as int,
            q4 as int,
            q5 as int,
            q6 as int,
            e@,
        );
    }
    Some((e, q6 + 1))
}

proof fn lemma_entry_first(ev: HistoryEntryV)
    ensures
        entry_payload(ev).len() >= 2,
        entry_payload(ev)[0] == 0x7b,
{
    let f1 = field("id"@, dec_int(ev.id));
    let o = seq![0x7bu8];
    assert(entry_payload(ev)[0] == (o + f1)[0]);
}

/// Decomposition of a `HistoryResponse` body at `pos`.
#[verifier::rlimit(100)]
proof fn lemma_hist_decomp(b: Seq<u8>, pos: int, es: Seq<HistoryEntryV>)
    requires
        0 <= pos <= b.len(),
        b.subrange(pos, b.len() as int) == obj_inner(MessageV::HistoryResponse { entries: es })
            + seq![0x7du8, 0x7du8],
    ensures
        ({
            let a0 = pos + quoted("entries"@).len() + 1;
            let ep = entries_payload(es);
            &&& is_prefix_at(
                field("entries"@, seq![0x5bu8] + entries_payload(es) + seq![0x5du8]),
                b,
                pos,
            )
            &&& b[a0] == 0x5b
            &&& is_prefix_at(ep, b, a0 + 1)
            &&& a0 + 1 + ep.len() + 3 == b.len()
            &&& b[a0 + 1 + ep.len()] == 0x5d
            &&& b.subrange(a0 + 2 + ep.len(), b.len() as int) == seq![0x7du8, 0x7du8]
        }),
{
    let ep = entries_payload(es);
    let hd = quoted("entries"@) + seq![0x3au8];
    let arr = (seq![0x5bu8] + ep) + seq![0x5du8];
    let f = hd + arr;
    let w = f + seq![0x7du8, 0x7du8];
    assert(w =~= obj_inner(MessageV::HistoryResponse { entries: es }) + seq![0x7du8, 0x7du8]);
    assert(is_prefix_at(w, b, pos)) by {
        assert(pos + w.len() == b.len());
        assert(b.subrange(pos, pos + w.len()) == w);
    }
    lemma_prefix_concat(f, seq![0x7du8, 0x7du8], b, pos);
    assert(field("entries"@, seq![0x5bu8] + entries_payload(es) + seq![0x5du8]) == f) by {
        assert(f =~= field("entries"@, seq![0x5bu8] + entries_payload(es) + seq![0x5du8]));
    }
    lemma_prefix_concat(hd, arr, b, pos);
    lemma_prefix_concat(seq![0x5bu8] + ep, seq![0x5du8], b, pos + hd.len());
    lemma_prefix_concat(seq![0x5bu8], ep, b, pos + hd.len());
    lemma_byte_prefix(0x5b, b, pos + hd.len());
    lemma_byte_prefix(0x5d, b, pos + hd.len() + 1 + ep.len());
    assert(b.subrange(pos + hd.len() + 2 + ep.len(), b.len() as int) =~= seq![0x7du8, 0x7du8]) by {
        assert(is_prefix_at(seq![0x7du8, 0x7du8], b, pos + f.len()));
        assert(pos + f.len() + 2 == b.len());
    }
}

/// How the entry list splits at its first element.
proof fn lemma_entries_split(es: Seq<HistoryEntryV>)
    requires
        es.len() >= 1,
    ensures
        es.len() == 1 ==> entries_payload(es) == entry_payload(es[0]),
        es.len() > 1 ==> entries_payload(es) == entry_payload(es[0]) + seq![0x2cu8]
            + entries_payload(es.drop_first()),
{
}

/// The canonical-input hypothesis for a `HistoryResponse` body at `pos`.
#[verifier::opaque]
spec fn hist_hyp(b: Seq<u8>, pos: int, es: Seq<HistoryEntryV>) -> bool {
    &&& (forall|i: int| 0 <= i < es.len() ==> wf_entry(#[trigger] es[i]))
    &&& b.subrange(pos, b.len() as int) == obj_inner(MessageV::HistoryResponse { entries: es })
        + seq![0x7du8, 0x7du8]
    &&& 0 <= pos <= b.len()
}

/// Under the hypothesis, the entry list region sits just after `[`.
#[verifier::rlimit(100)]
proof fn lemma_hist_region(b: Seq<u8>, pos: int, es: Seq<HistoryEntryV>)
    requires
        hist_hyp(b, pos, es),
    ensures
        is_prefix_at(field("entries"@, seq![0x5bu8] + entries_payload(es) + seq![0x5du8]), b, pos),
        ({
            let a1 = pos + quoted("entries"@).len() + 2;
            &&& b[a1 - 1] == 0x5b
            &&& is_prefix_at(entries_payload(es), b, a1)
            &&& a1 + entries_payload(es).len() + 3 == b.len()
            &&& b[a1 + entries_payload(es).len()] == 0x5d
            &&& b.subrange(a1 + entries_payload(es).len() + 1, b.len() as int) == seq![
                0x7du8,
                0x7du8,
            ]
        }),
{
    reveal(hist_hyp);
    lemma_hist_decomp(b, pos, es);
}

/// With the hypothesis, the byte after `[` tells an empty list apart from a
/// first entry.
#[verifier::rlimit(100)]
proof fn lemma_hist_empty_iff(b: Seq<u8>, pos: int, es: Seq<HistoryEntryV>)
    requires
        hist_hyp(b, pos, es),
    ensures
        ({
            let a1 = pos + quoted("entries"@).len() + 2;
            &&& es.len() > 0 ==> a1 < b.len() && b[a1] == 0x7b
            &&& es.len() == 0 ==> a1 + 3 == b.len() && b[a1] == 0x5d && b.subrange(
                a1 + 1,
                b.len() as int,
            ) == seq![0x7du8, 0x7du8]
        }),
{
    lemma_hist_region(b, pos, es);
    let a1 = pos + quoted("entries"@).len() + 2;
    if es.len() > 0 {
        lemma_entries_split(es);
        lemma_entry_first(es[0]);
        assert(b[a1] == entries_payload(es)[0]) by {
            assert(b.subrange(a1, a1 + entries_payload(es).len())[0] == entries_payload(es)[0]);
        }
        assert(entries_payload(es)[0] == entry_payload(es[0])[0]);
    } else {
        assert(entries_payload(es).len() == 0);
    }
}

/// A step of the entry loop: the next entry is canonically present.
proof fn lemma_hist_entry_prefix(b: Seq<u8>, pos: int, cur: int, es: Seq<HistoryEntryV>, k: int)
    requires
        hist_hyp(b, pos, es),
        0 <= k < es.len(),
        is_prefix_at(entries_payload(es.skip(k)), b, cur),
    ensures
        wf_entry(es[k]),
        is_prefix_at(entry_payload(es[k]), b, cur),
{
    reveal(hist_hyp);
    let sk = es.skip(k);
    assert(sk[0] == es[k]);
    lemma_entries_split(sk);
    if sk.len() == 1 {
        assert(entries_payload(sk) == entry_payload(sk[0]));
    } else {
        assert(entries_payload(sk) == (entry_payload(sk[0]) + seq![0x2cu8]) + entries_payload(
            sk.drop_first(),
        )) by {
            assert((entry_payload(sk[0]) + seq![0x2cu8]) + entries_payload(sk.drop_first())
                =~= entry_payload(sk[0]) + seq![0x2cu8] + entries_payload(sk.drop_first()));
        }
        lemma_prefix_concat(
            entry_payload(sk[0]) + seq![0x2cu8],
            entries_payload(sk.drop_first()),
            b,
            cur,
        );
        lemma_prefix_concat(entry_payload(sk[0]), seq![0x2cu8], b, cur);
    }
}

/// After one entry, the following byte decides: a comma means more entries
/// follow; a closing bracket means this was the last one.
#[verifier::rlimit(100)]
proof fn lemma_hist_after_entry(b: Seq<u8>, pos: int, cur: int, q: int, es: Seq<HistoryEntryV>, k: int)
    requires
        hist_hyp(b, pos, es),
        0 <= k < es.len(),
        0 <= cur,
        is_prefix_at(entries_payload(es.skip(k)), b, cur),
        cur + entries_payload(es.skip(k)).len() + 3 == b.len(),
        q == cur + entry_payload(es[k]).len(),
    ensures
        es.skip(k).len() == 1 ==> q + 3 == b.len() && b[q] == 0x5d && b.subrange(
            q + 1,
            b.len() as int,
        ) == seq![0x7du8, 0x7du8],
        es.skip(k).len() > 1 ==> b[q] == 0x2c && is_prefix_at(
            entries_payload(es.skip(k + 1)),
            b,
            q + 1,
        ) && q + 1 + entries_payload(es.skip(k + 1)).len() + 3 == b.len(),
{
    reveal(hist_hyp);
    let sk = es.skip(k);
    assert(sk[0] == es[k]);
    lemma_entries_split(sk);
    lemma_hist_decomp(b, pos, es);
    if sk.len() == 1 {
        assert(entries_payload(sk) == entry_payload(es[k]));
        let a1 = pos + quoted("entries"@).len() + 2;
        assert(b[a1 + entries_payload(es).len()] == 0x5d);
        assert(cur == a1 + entries_payload(es).len() - entries_payload(sk).len()) by {
            assert(cur + entries_payload(sk).len() + 3 == b.len());
            assert(a1 + entries_payload(es).len() + 3 == b.len());
        }
        assert(q == a1 + entries_payload(es).len());
        assert(b.subrange(q + 1, b.len() as int) == seq![0x7du8, 0x7du8]);
    } else {
        assert(entries_payload(sk) == (entry_payload(sk[0]) + seq![0x2cu8]) + entries_payload(
            sk.drop_first(),
        )) by {
            assert((entry_payload(sk[0]) + seq![0x2cu8]) + entries_payload(sk.drop_first())
                =~= entry_payload(sk[0]) + seq![0x2cu8] + entries_payload(sk.drop_first()));
        }
        lemma_prefix_concat(
            entry_payload(sk[0]) + seq![0x2cu8],
            entries_payload(sk.drop_first()),
            b,
            cur,
        );
        lemma_prefix_concat(entry_payload(sk[0]), seq![0x2cu8], b, cur);
        lemma_byte_prefix(0x2c, b, q);
        assert(sk.drop_first() =~= es.skip(k + 1));
    }
}

/// Assembling a parsed entry list back into the body region.
#[verifier::rlimit(100)]
proof fn lemma_hist_assemble(b: Seq<u8>, pos: int, q0: int, q: int, vs: Seq<HistoryEntryV>)
    requires
        0 <= pos <= q0,
        q0 + 1 <= q,
        q + 3 == b.len(),
        b.subrange(pos, q0) == quoted("entries"@) + seq![0x3au8],
        b[q0] == 0x5b,
        b.subrange(q0 + 1, q) == entries_payload(vs),
        b[q] == 0x5d,
        b.subrange(q + 1, b.len() as int) == seq![0x7du8, 0x7du8],
    ensures
        b.subrange(pos, b.len() as int) == obj_inner(MessageV::HistoryResponse { entries: vs })
            + seq![0x7du8, 0x7du8],
{
    let hd = quoted("entries"@) + seq![0x3au8];
    assert(b.subrange(q0, q0 + 1) =~= seq![0x5bu8]);
    assert(b.subrange(q, q + 1) =~= seq![0x5du8]);
    lemma_seg_glue(b, pos, q0, q0 + 1, hd, seq![0x5bu8]);
    lemma_seg_glue(b, pos, q0 + 1, q, hd + seq![0x5bu8], entries_payload(vs));
    lemma_seg_glue(b, pos, q, q + 1, (hd + seq![0x5bu8]) + entries_payload(vs), seq![0x5du8]);
    lemma_seg_glue(
        b,
        pos,
        q + 1,
        q + 3,
        ((hd + seq![0x5bu8]) + entries_payload(vs)) + seq![0x5du8],
        seq![0x7du8, 0x7du8],
    );
    assert((((hd + seq![0x5bu8]) + entries_payload(vs)) + seq![0x5du8]) + seq![0x7du8, 0x7du8]
        =~= obj_inner(MessageV::HistoryResponse { entries: vs }) + seq![0x7du8, 0x7du8]);
}

/// Body of a `HistoryResponse` object.
#[verifier::rlimit(100)]
fn parse_hist_body(p: &[u8], pos: usize) -> (r: Option<Message>)
    requires
        pos <= p@.len(),
    ensures
        r matches Some(m) ==> m@ is HistoryResponse && wf_msg(m@) && p@.subrange(
            pos as int,
            p@.len() as int,
        ) == obj_inner(m@) + seq![0x7du8, 0x7du8],
        forall|es: Seq<HistoryEntryV>|
            hist_hyp(p@, pos as int, es) ==> (r matches Some(m) && m@
                == (MessageV::HistoryResponse { entries: es })),
{
    let nn = p.len();
    proof {
        assert forall|es: Seq<HistoryEntryV>| hist_hyp(p@, pos as int, es) implies is_prefix_at(
            field("entries"@, seq![0x5bu8] + entries_payload(es) + seq![0x5du8]),
            p@,
            pos as int,
        ) by {
            lemma_hist_region(p@, pos as int, es);
        }
    }
    let q0 = match parse_field_head(p, pos, "entries") {
        Some(x) => x,
        None => {
            return None;
        },
    };
    if !at_is(p, q0, 0x5b) {
        proof {
            assert forall|es: Seq<HistoryEntryV>| !hist_hyp(p@, pos as int, es) by {
                if hist_hyp(p@, pos as int, es) {
                    lemma_hist_region(p@, pos as int, es);
                }
            }
        }
        return None;
    }
    assert(q0 < nn);
    parse_hist_list(p, pos, q0)
}

/// The entry list and closing of a `HistoryResponse` body, from the `[` on.
fn parse_hist_list(p: &[u8], pos: usize, q0: usize) -> (r: Option<Message>)
    requires
        pos <= q0 < p@.len(),
        p@[q0 as int] == 0x5b,
        p@.subrange(pos as int, q0 as int) == quoted("entries"@) + seq![0x3au8],
    ensures
        r matches Some(m) ==> m@ is HistoryResponse && wf_msg(m@) && p@.subrange(
            pos as int,
            p@.len() as int,
        ) == obj_inner(m@) + seq![0x7du8, 0x7du8],
        forall|es: Seq<HistoryEntryV>|
            hist_hyp(p@, pos as int, es) ==> (r matches Some(m) && m@
                == (MessageV::HistoryResponse { entries: es })),
{
    let nn = p.len();
    let a1 = q0 + 1;
    if at_is(p, a1, 0x5d) {
        parse_hist_empty(p, pos, q0)
    } else {
        parse_hist_entries(p, pos, q0)
    }
}

/// The empty entry list `[]}}`.
#[verifier::rlimit(100)]
fn parse_hist_empty(p: &[u8], pos: usize, q0: usize) -> (r: Option<Message>)
    requires
        q0 + 1 < p@.len(),
        p@[q0 as int + 1] == 0x5d,
        pos <= q0 < p@.len(),
        p@[q0 as int] == 0x5b,
        p@.subrange(pos as int, q0 as int) == quoted("entries"@) + seq![0x3au8],
    ensures
        r matches Some(m) ==> m@ is HistoryResponse && wf_msg(m@) && p@.subrange(
            pos as int,
            p@.len() as int,
        ) == obj_inner(m@) + seq![0x7du8, 0x7du8],
        forall|es: Seq<HistoryEntryV>|
            hist_hyp(p@, pos as int, es) ==> (r matches Some(m) && m@
                == (MessageV::HistoryResponse { entries: es })),
{
    let ghost n = p@.len() as int;
    let nn = p.len();
    let a1 = q0 + 1;
    proof {
        assert(p@.subrange(pos as int, q0 as int).len() == q0 - pos);
        assert(p@.subrange(pos as int, q0 as int).len() == (quoted("entries"@)
            + seq![0x3au8]).len());
        assert((quoted("entries"@) + seq![0x3au8]).len() == quoted("entries"@).len() + 1);
        assert(q0 as int == pos + quoted("entries"@).len() + 1);
        assert forall|es: Seq<HistoryEntryV>|
            hist_hyp(p@, pos as int, es) implies (a1 == pos + quoted("entries"@).len() + 2
            && is_prefix_at(entries_payload(es), p@, a1 as int) && a1 + entries_payload(es).len()
            + 3 == n && p@[a1 + entries_payload(es).len()] == 0x5d && p@.subrange(
            a1 + entries_payload(es).len() + 1,
            n,
        ) == seq![0x7du8, 0x7du8]) by {
            lemma_hist_region(p@, pos as int, es);
        }
        assert forall|es: Seq<HistoryEntryV>|
            hist_hyp(p@, pos as int, es) implies (es.len() > 0 ==> a1 < nn && p@[a1 as int]
            == 0x7b) && (es.len() == 0 ==> a1 + 3 == n && p@[a1 as int] == 0x5d && p@.subrange(
            a1 + 1,
            n,
        ) == seq![0x7du8, 0x7du8]) by {
            lemma_hist_empty_iff(p@, pos as int, es);
        }
    }
    let mut entries: Vec<HistoryEntry> = Vec::new();
    if at_is(p, a1, 0x5d) {
        if parse_tail(p, a1 + 1) {
            let m = Message::HistoryResponse { entries };
            proof {
                let vs = Seq::<HistoryEntryV>::empty();
                assert(entries@.map_values(|e: HistoryEntry| e@) =~= vs);
                assert(entries_payload(vs) == Seq::<u8>::empty());
                assert(p@.subrange(a1 as int, a1 as int) =~= entries_payload(vs));
                lemma_hist_assemble(p@, pos as int, q0 as int, a1 as int, vs);
                assert forall|es: Seq<HistoryEntryV>|
                    hist_hyp(p@, pos as int, es) implies es =~= vs by {
                    if es.len() > 0 {
                        assert(p@[a1 as int] == 0x7b);
                    }
                }
            }
            return Some(m);
        } else {
            return None;
        }
    }
    None
}

/// A non-empty entry list.
#[verifier::rlimit(100)]
fn parse_hist_entries(p: &[u8], pos: usize, q0: usize) -> (r: Option<Message>)
    requires
        !(q0 + 1 < p@.len() && p@[q0 as int + 1] == 0x5d),
        pos <= q0 < p@.len(),
        p@[q0 as int] == 0x5b,
        p@.subrange(pos as int, q0 as int) == quoted("entries"@) + seq![0x3au8],
    ensures
        r matches Some(m) ==> m@ is HistoryResponse && wf_msg(m@) && p@.subrange(
            pos as int,
            p@.len() as int,
        ) == obj_inner(m@) + seq![0x7du8, 0x7du8],
        forall|es: Seq<HistoryEntryV>|
            hist_hyp(p@, pos as int, es) ==> (r matches Some(m) && m@
                == (MessageV::HistoryResponse { entries: es })),
{
    let ghost n = p@.len() as int;
    let nn = p.len();
    let a1 = q0 + 1;
    let mut entries: Vec<HistoryEntry> = Vec::new();
    proof {
        assert(p@.subrange(pos as int, q0 as int).len() == q0 - pos);
        assert(p@.subrange(pos as int, q0 as int).len() == (quoted("entries"@)
            + seq![0x3au8]).len());
        assert((quoted("entries"@) + seq![0x3au8]).len() == quoted("entries"@).len() + 1);
        assert(q0 as int == pos + quoted("entries"@).len() + 1);
        assert(entries@.map_values(|e: HistoryEntry| e@) =~= Seq::<HistoryEntryV>::empty());
        assert forall|es: Seq<HistoryEntryV>| #![trigger hist_hyp(p@, pos as int, es)]
            hist_hyp(p@, pos as int, es) implies (0 < es.len() && entries@.map_values(
            |e: HistoryEntry| e@,
        ) == es.take(0) && is_prefix_at(entries_payload(es.skip(0)), p@, a1 as int) && a1
            + entries_payload(es.skip(0)).len() + 3 == n) by {
            lemma_hist_region(p@, pos as int, es);
            lemma_hist_empty_iff(p@, pos as int, es);
            assert(es.skip(0) =~= es);
            assert(es.take(0) =~= Seq::<HistoryEntryV>::empty());
        }
    }
    let mut cur: usize = a1;
    loop
        invariant
            nn == p@.len(),
            n == p@.len() as int,
            pos <= q0 < nn,
            a1 == q0 + 1,
            a1 <= cur <= nn,
            p@[q0 as int] == 0x5b,
            p@.subrange(pos as int, q0 as int) == quoted("entries"@) + seq![0x3au8],
            forall|i: int| #![trigger entries@[i]]
                0 <= i < entries@.len() ==> wf_entry(entries@[i]@),
            entries@.len() == 0 ==> cur == a1,
            entries@.len() > 0 ==> p@.subrange(a1 as int, cur as int) == entries_payload(
                entries@.map_values(|e: HistoryEntry| e@),
            ) + seq![0x2cu8],
            forall|es: Seq<HistoryEntryV>| #![trigger hist_hyp(p@, pos as int, es)]
                hist_hyp(p@, pos as int, es) ==> {
                    let k = entries@.len() as int;
                    &&& k < es.len()
                    &&& entries@.map_values(|e: HistoryEntry| e@) == es.take(k)
                    &&& is_prefix_at(entries_payload(es.skip(k)), p@, cur as int)
                    &&& cur + entries_payload(es.skip(k)).len() + 3 == n
                },
        decreases p@.len() - cur,
    {
        let ghost k = entries@.len() as int;
        proof {
            assert forall|es: Seq<HistoryEntryV>|
                hist_hyp(p@, pos as int, es) implies (wf_entry(es[k]) && is_prefix_at(
                entry_payload(es[k]),
                p@,
                cur as int,
            )) by {
                lemma_hist_entry_prefix(p@, pos as int, cur as int, es, k);
            }
        }
        let (e, q) = match parse_entry(p, cur) {
            Some(x) => x,
            None => {
                return None;
            },
        };
        let ghost oldvs = entries@.map_values(|e2: HistoryEntry| e2@);
        entries.push(e);
        proof {
            assert(entries@.map_values(|e2: HistoryEntry| e2@) =~= oldvs.push(e@));
            lemma_entries_payload_push(oldvs, e@);
            if oldvs.len() > 0 {
                lemma_seg_glue(
                    p@,
                    a1 as int,
                    cur as int,
                    q as int,
                    entries_payload(oldvs) + seq![0x2cu8],
                    entry_payload(e@),
                );
                assert((entries_payload(oldvs) + seq![0x2cu8]) + entry_payload(e@)
                    =~= entries_payload(oldvs) + seq![0x2cu8] + entry_payload(e@));
            }
            assert(p@.subrange(a1 as int, q as int) == entries_payload(oldvs.push(e@)));
            assert forall|es: Seq<HistoryEntryV>|
                hist_hyp(p@, pos as int, es) implies (e@ == es[k] && q == cur + entry_payload(
                es[k],
            ).len()) by {
                lemma_hist_entry_prefix(p@, pos as int, cur as int, es, k);
            }
        }
        if at_is(p, q, 0x2c) {
            proof {
                assert(p@.subrange(q as int, q + 1) =~= seq![0x2cu8]);
                lemma_seg_glue(
                    p@,
                    a1 as int,
                    q as int,
                    q + 1,
                    entries_payload(oldvs.push(e@)),
                    seq![0x2cu8],
                );
                assert forall|es: Seq<HistoryEntryV>|
                    hist_hyp(p@, pos as int, es) implies {
                    &&& k + 1 < es.len()
                    &&& oldvs.push(e@) == es.take(k + 1)
                    &&& is_prefix_at(entries_payload(es.skip(k + 1)), p@, q + 1)
                    &&& q + 1 + entries_payload(es.skip(k + 1)).len() + 3 == n
                } by {
                    lemma_hist_after_entry(p@, pos as int, cur as int, q as int, es, k);
                    if es.skip(k).len() == 1 {
                        assert(p@[q as int] == 0x5d);
                        assert(false);
                    }
                    assert(es.take(k + 1) =~= es.take(k).push(es[k]));
                }
            }
            cur = q + 1;
        } else if at_is(p, q, 0x5d) {
            proof {
                assert forall|es: Seq<HistoryEntryV>|
                    hist_hyp(p@, pos as int, es) implies (es.len() == k + 1 && q + 3 == n
                    && p@.subrange(q + 1, n) == seq![0x7du8, 0x7du8] && es =~= oldvs.push(e@)) by {
                    lemma_hist_after_entry(p@, pos as int, cur as int, q as int, es, k);
                    if es.skip(k).len() > 1 {
                        assert(p@[q as int] == 0x2c);
                        assert(false);
                    }
                    assert(es.take(k + 1) =~= es.take(k).push(es[k]));
                    assert(es.take(k + 1) =~= es);
                }
            }
            if parse_tail(p, q + 1) {
                let m = Message::HistoryResponse { entries };
                proof {
                    lemma_hist_assemble(p@, pos as int, q0 as int, q as int, oldvs.push(e@));
                }
                return Some(m);
            } else {
                return None;
            }
        } else {
            proof {
                assert forall|es: Seq<HistoryEntryV>| !hist_hyp(p@, pos as int, es) by {
                    if hist_hyp(p@, pos as int, es) {
                        lemma_hist_after_entry(p@, pos as int, cur as int, q as int, es, k);
                        lemma_entries_split(es.skip(k));
                    }
                }
            }
            return None;
        }
    }
}

proof fn lemma_obj_shape(nm: Seq<char>, inner: Seq<u8>)
    ensures
        obj(nm, inner).len() == 5 + quoted(nm).len() + inner.len(),
        obj(nm, inner)[0] == 0x7b,
        quoted(nm).len() >= 2,
{
    assert(obj(nm, inner)[0] == 0x7b) by {
        let a = seq![0x7bu8] + quoted(nm);
        assert(obj(nm, inner)[0] == ((a + seq![0x3au8, 0x7bu8]) + inner)[0]);
        assert(((a + seq![0x3au8, 0x7bu8]) + inner)[0] == a[0]);
    }
    assert(quoted(nm).len() >= 2);
}

proof fn lemma_quoted_first(cs: Seq<char>)
    ensures
        quoted(cs).len() >= 2,
        quoted(cs)[0] == 0x22,
{
}

/// The suffix of an object payload after `{"Name":{`.
proof fn lemma_obj_suffix(nm: Seq<char>, inner: Seq<u8>, b: Seq<u8>)
    requires
        b == obj(nm, inner),
    ensures
        b.subrange(3 + quoted(nm).len() as int, b.len() as int) == inner + seq![0x7du8, 0x7du8],
        b.len() == 5 + quoted(nm).len() + inner.len(),
{
    let a2 = (seq![0x7bu8] + quoted(nm)) + seq![0x3au8, 0x7bu8];
    assert(b =~= a2 + (inner + seq![0x7du8, 0x7du8]));
    assert(is_prefix_at(a2 + (inner + seq![0x7du8, 0x7du8]), b, 0)) by {
        assert(b.subrange(0, b.len() as int) =~= b);
    }
    lemma_prefix_concat(a2, inner + seq![0x7du8, 0x7du8], b, 0);
    assert(a2.len() == 3 + quoted(nm).len());
}

/// First-byte classification of canonical payloads.
proof fn lemma_payload_first(m: MessageV)
    ensures
        payload(m).len() > 0,
        (m is Ping || m is Pong) ==> payload(m)[0] == 0x22,
        !(m is Ping || m is Pong) ==> payload(m)[0] == 0x7b && payload(m) == obj(
            obj_name(m),
            obj_inner(m),
        ),
{
    match m {
        MessageV::Ping => {
            lemma_quoted_first("Ping"@);
        },
        MessageV::Pong => {
            lemma_quoted_first("Pong"@);
        },
        _ => {
            lemma_obj_shape(obj_name(m), obj_inner(m));
        },
    }
}

/// Parse a bare quoted payload: `"Ping"` or `"Pong"`.
#[verifier::rlimit(100)]
fn parse_pingpong(p: &[u8]) -> (r: Option<Message>)
    requires
        p@.len() > 0,
        p@[0] == 0x22,
    ensures
        r matches Some(m) ==> p@ == payload(m@) && wf_msg(m@),
        forall|m: MessageV| #![trigger payload(m)]
            (wf_msg(m) && p@ == payload(m)) ==> (r matches Some(mm) && mm@ == m),
{
    proof {
        reveal_strlit("Ping");
        reveal_strlit("Pong");
        assert("Ping"@ != "Pong"@) by {
            assert("Ping"@[1] == 'i');
            assert("Pong"@[1] == 'o');
        }
        assert forall|m: MessageV| #![trigger payload(m)]
            (wf_msg(m) && p@ == payload(m)) implies ((m is Ping || m is Pong) && is_prefix_at(
            payload(m),
            p@,
            0,
        )) by {
            lemma_payload_first(m);
            assert(p@.subrange(0, p@.len() as int) =~= p@);
        }
    }
    let n0 = p.len();
    match parse_string(p, 0) {
        Some((s, e)) => {
            if e != n0 {
                return None;
            }
            if str_is(&s, "Ping") {
                proof {
                    assert(p@ =~= quoted(s@));
                }
                return Some(Message::Ping);
            }
            if str_is(&s, "Pong") {
                proof {
                    assert(p@ =~= quoted(s@));
                }
                return Some(Message::Pong);
            }
            None
        },
        None => {
            None
        },
    }
}

/// Parse an object payload: every variant but the two bare heartbeats.
#[verifier::rlimit(100)]
fn parse_object(p: &[u8]) -> (r: Option<Message>)
    requires
        !(p@.len() > 0 && p@[0] == 0x22),
    ensures
        r matches Some(m) ==> p@ == payload(m@) && wf_msg(m@),
        forall|m: MessageV| #![trigger payload(m)]
            (wf_msg(m) && p@ == payload(m)) ==> (r matches Some(mm) && mm@ == m),
{
    proof {
        assert forall|m: MessageV| #![trigger payload(m)]
            (wf_msg(m) && p@ == payload(m)) implies (!(m is Ping || m is Pong) && p@ == obj(
            obj_name(m),
            obj_inner(m),
        ) && p@.subrange(3 + quoted(obj_name(m)).len() as int, p@.len() as int) == obj_inner(m)
            + seq![0x7du8, 0x7du8]) by {
            lemma_payload_first(m);
            if m is Ping || m is Pong {
                assert(p@[0] == 0x22);
            }
            lemma_obj_suffix(obj_name(m), obj_inner(m), p@);
        }
    }
    let (name, q) = match parse_obj_name(p) {
        Some(x) => x,
        None => {
            return None;
        },
    };
    let ghost n = p@.len() as int;
    proof {
        reveal_strlit("Auth");
        reveal_strlit("AuthResponse");
        reveal_strlit("ClipboardUpdate");
        reveal_strlit("ClipboardAck");
        reveal_strlit("HistoryRequest");
        reveal_strlit("HistoryResponse");
        reveal_strlit("Error");
        assert("AuthResponse"@[0] == 'A' && "ClipboardAck"@[0] == 'C');
        assert("ClipboardUpdate"@[0] == 'C' && "HistoryResponse"@[0] == 'H');
        assert forall|m: MessageV| #![trigger payload(m)]
            (wf_msg(m) && p@ == payload(m)) implies (name@ == obj_name(m) && q == 3 + quoted(
            obj_name(m),
        ).len() && p@.subrange(q as int, n) == obj_inner(m) + seq![0x7du8, 0x7du8]) by {
        }
    }
    let r: Option<Message> = if str_is(&name, "Auth") {
        let r0 = parse_auth_body(p, q);
        proof {
            assert forall|m: MessageV| #![trigger payload(m)]
                (wf_msg(m) && p@ == payload(m)) implies (r0 matches Some(mm) && mm@ == m) by {
                match m {
                    MessageV::Auth { token } => {
                        assert(p@.subrange(q as int, n) == obj_inner(MessageV::Auth { token })
                            + seq![0x7du8, 0x7du8]);
                    },
                    _ => {
                        assert(name@ == obj_name(m));
                    },
                }
            }
            assert(r0 matches Some(mm) ==> name@ == obj_name(mm@));
        }
        r0
    } else if str_is(&name, "AuthResponse") {
        let r0 = parse_authresp_body(p, q);
        proof {
            assert forall|m: MessageV| #![trigger payload(m)]
                (wf_msg(m) && p@ == payload(m)) implies (r0 matches Some(mm) && mm@ == m) by {
                match m {
                    MessageV::AuthResponse { success, message } => {
                        assert(p@.subrange(q as int, n) == obj_inner(
                            MessageV::AuthResponse { success, message },
                        ) + seq![0x7du8, 0x7du8]);
                    },
                    _ => {
                        assert(name@ == obj_name(m));
                    },
                }
            }
            assert(r0 matches Some(mm) ==> name@ == obj_name(mm@));
        }
        r0
    } else if str_is(&name, "ClipboardUpdate") {
        let r0 = parse_upd_body(p, q);
        proof {
            assert forall|m: MessageV| #![trigger payload(m)]
                (wf_msg(m) && p@ == payload(m)) implies (r0 matches Some(mm) && mm@ == m) by {
                match m {
                    MessageV::ClipboardUpdate { content_type, content, timestamp, source, checksum } => {
                        assert(p@.subrange(q as int, n) == obj_inner(
                            MessageV::ClipboardUpdate {
                                content_type,
                                content,
                                timestamp,
                                source,
                                checksum,
                            },
                        ) + seq![0x7du8, 0x7du8]);
                    },
                    _ => {
                        assert(name@ == obj_name(m));
                    },
                }
            }
            assert(r0 matches Some(mm) ==> name@ == obj_name(mm@));
        }
        r0
    } else if str_is(&name, "ClipboardAck") {
        let r0 = parse_ack_body(p, q);
        proof {
            assert forall|m: MessageV| #![trigger payload(m)]
                (wf_msg(m) && p@ == payload(m)) implies (r0 matches Some(mm) && mm@ == m) by {
                match m {
                    MessageV::ClipboardAck { checksum, success } => {
                        assert(p@.subrange(q as int, n) == obj_inner(
                            MessageV::ClipboardAck { checksum, success },
                        ) + seq![0x7du8, 0x7du8]);
                    },
                    _ => {
                        assert(name@ == obj_name(m));
                    },
                }
            }
            assert(r0 matches Some(mm) ==> name@ == obj_name(mm@));
        }
        r0
    } else if str_is(&name, "HistoryRequest") {
        let r0 = parse_histreq_body(p, q);
        proof {
            assert forall|m: MessageV| #![trigger payload(m)]
                (wf_msg(m) && p@ == payload(m)) implies (r0 matches Some(mm) && mm@ == m) by {
                match m {
                    MessageV::HistoryRequest { limit, offset } => {
                        assert(p@.subrange(q as int, n) == obj_inner(
                            MessageV::HistoryRequest { limit, offset },
                        ) + seq![0x7du8, 0x7du8]);
                    },
                    _ => {
                        assert(name@ == obj_name(m));
                    },
                }
            }
            assert(r0 matches Some(mm) ==> name@ == obj_name(mm@));
        }
        r0
    } else if str_is(&name, "HistoryResponse") {
        proof {
            assert forall|m: MessageV| #![trigger payload(m)]
                (wf_msg(m) && p@ == payload(m) && m is HistoryResponse) implies hist_hyp(
                p@,
                q as int,
                m->HistoryResponse_entries,
            ) by {
                reveal(hist_hyp);
            }
        }
        let r0 = parse_hist_body(p, q);
        proof {
            assert forall|m: MessageV| #![trigger payload(m)]
                (wf_msg(m) && p@ == payload(m)) implies (r0 matches Some(mm) && mm@ == m) by {
                match m {
                    MessageV::HistoryResponse { entries } => {
                        assert(hist_hyp(p@, q as int, entries));
                    },
                    _ => {
                        assert(name@ == obj_name(m));
                    },
                }
            }
            assert(r0 matches Some(mm) ==> name@ == obj_name(mm@));
        }
        r0
    } else {
        return parse_err_name(p, q, &name);
    };
    finish_object(p, q, name, r)
}

/// The only remaining object name is `Error`.
#[verifier::rlimit(100)]
fn parse_err_name(p: &[u8], q: usize, name: &String) -> (r: Option<Message>)
    requires
        q <= p@.len(),
        1 < q,
        p@.subrange(0, q as int) == seq![0x7bu8] + quoted(name@) + seq![0x3au8, 0x7bu8],
        name@ != "Auth"@,
        name@ != "AuthResponse"@,
        name@ != "ClipboardUpdate"@,
        name@ != "ClipboardAck"@,
        name@ != "HistoryRequest"@,
        name@ != "HistoryResponse"@,
        forall|m: MessageV| #![trigger payload(m)]
            (wf_msg(m) && p@ == payload(m)) ==> (!(m is Ping || m is Pong) && name@ == obj_name(m)
                && q == 3 + quoted(obj_name(m)).len() && p@.subrange(q as int, p@.len() as int)
                == obj_inner(m) + seq![0x7du8, 0x7du8]),
    ensures
        r matches Some(m) ==> p@ == payload(m@) && wf_msg(m@),
        forall|m: MessageV| #![trigger payload(m)]
            (wf_msg(m) && p@ == payload(m)) ==> (r matches Some(mm) && mm@ == m),
{
    if str_is(name, "Error") {
        let r = parse_err_body(p, q);
        finish_object(p, q, String::from_str("Error"), r)
    } else {
        proof {
            assert forall|m: MessageV| !(wf_msg(m) && p@ == payload(m)) by {
                if wf_msg(m) && p@ == payload(m) {
                    match m {
                        MessageV::Error { .. } => {
                            assert(name@ == "Error"@);
                        },
                        _ => {
                        },
                    }
                }
            }
        }
        None
    }
}

/// Join a parsed object head and body back into the whole payload.
#[verifier::rlimit(100)]
fn finish_object(p: &[u8], q: usize, name: String, r: Option<Message>) -> (rr: Option<Message>)
    requires
        q <= p@.len(),
        p@.subrange(0, q as int) == seq![0x7bu8] + quoted(name@) + seq![0x3au8, 0x7bu8],
        r matches Some(m) ==> !(m@ is Ping || m@ is Pong) && wf_msg(m@) && name@ == obj_name(m@)
            && p@.subrange(q as int, p@.len() as int) == obj_inner(m@) + seq![0x7du8, 0x7du8],
        forall|m: MessageV| #![trigger payload(m)]
            (wf_msg(m) && p@ == payload(m)) ==> (r matches Some(mm) && mm@ == m),
    ensures
        rr == r,
        rr matches Some(m) ==> p@ == payload(m@) && wf_msg(m@),
        forall|m: MessageV| #![trigger payload(m)]
            (wf_msg(m) && p@ == payload(m)) ==> (rr matches Some(mm) && mm@ == m),
{
    proof {
        if r is Some {
            let m = r->Some_0;
            lemma_seg_glue(
                p@,
                0,
                q as int,
                p@.len() as int,
                (seq![0x7bu8] + quoted(name@)) + seq![0x3au8, 0x7bu8],
                obj_inner(m@) + seq![0x7du8, 0x7du8],
            );
            assert(p@.subrange(0, q as int) =~= (seq![0x7bu8] + quoted(name@)) + seq![
                0x3au8,
                0x7bu8,
            ]);
            assert(p@.subrange(0, p@.len() as int) =~= p@);
            assert(((seq![0x7bu8] + quoted(obj_name(m@))) + seq![0x3au8, 0x7bu8]) + (obj_inner(m@)
                + seq![0x7du8, 0x7du8]) =~= obj(obj_name(m@), obj_inner(m@)));
            lemma_payload_first(m@);
        }
    }
    r
}

/// Parse one whole payload; accepts exactly the canonical payload of exactly
/// one message.
fn parse_payload(p: &[u8]) -> (r: Option<Message>)
    ensures
        r matches Some(m) ==> p@ == payload(m@) && wf_msg(m@),
        forall|m: MessageV| #![trigger payload(m)]
            (wf_msg(m) && p@ == payload(m)) ==> (r matches Some(mm) && mm@ == m),
{
    let n0 = p.len();
    if n0 > 0 && p[0] == 0x22 {
        parse_pingpong(p)
    } else {
        parse_object(p)
    }
}

/// Decoding can ask for more bytes, or reject the buffer.
#[derive(Clone, Copy, Debug, PartialEq, Eq, Structural)]
pub enum DecodeError {
    /// The buffer holds less than one whole frame; keep it and read more.
    NeedMoreData,
    /// The buffer holds a whole frame whose payload is not a message.
    Malformed,
}

impl Message {
    /// Decode one length-prefixed frame from the front of `bytes`.
    ///
    /// Exactly the canonical frames are accepted: a too-short buffer asks for
    /// more data, and a complete frame decodes to the one message it encodes,
    /// or is rejected.  Together with `to_bytes` this gives the round trip:
    /// decoding an encoded message returns that message and consumes the
    /// whole frame.
    #[verifier::rlimit(100)]
    pub fn from_bytes(bytes: &[u8]) -> (r: Result<(Message, usize), DecodeError>)
        ensures
            r == Err::<(Message, usize), DecodeError>(DecodeError::NeedMoreData) <==> (bytes@.len()
                < 4 || (bytes@.len() as int) < 4 + be32_at(bytes@)),
            r matches Ok(x) ==> {
                &&& x.1 as int == 4 + payload(x.0@).len()
                &&& x.1 <= bytes@.len()
                &&& bytes@.subrange(0, x.1 as int) == frame(x.0@)
                &&& payload(x.0@).len() < 0x1_0000_0000
                &&& wf_msg(x.0@)
            },
            forall|m: MessageV| #![trigger frame_prefix(m, bytes@)]
                (wf_msg(m) && frame_prefix(m, bytes@)) ==> (r matches Ok(x) && x.0@ == m && x.1
                    as int == 4 + payload(m).len()),
    {
        proof {
            if bytes@.len() >= 4 {
                lemma_be32_bytes_at(bytes@);
            }
            assert forall|m: MessageV| #![trigger frame_prefix(m, bytes@)]
                frame_prefix(m, bytes@) implies (bytes@.len() >= 4 && be32_at(bytes@) == payload(
                m,
            ).len() && (bytes@.len() as int) >= 4 + payload(m).len() && bytes@.subrange(
                4,
                4 + payload(m).len() as int,
            ) == payload(m)) by {
                lemma_prefix_concat(
                    be32_bytes(payload(m).len() as int),
                    payload(m),
                    bytes@,
                    0,
                );
                lemma_be32_roundtrip(payload(m).len() as int);
                assert(bytes@.subrange(0, 4) =~= be32_bytes(payload(m).len() as int));
            }
        }
        if bytes.len() < 4 {
            return Err(DecodeError::NeedMoreData);
        }
        let n64 = crate::codec::read_be32(bytes);
        if (bytes.len() as u64) < 4 + n64 {
            return Err(DecodeError::NeedMoreData);
        }
        let end = 4 + (n64 as usize);
        let pv = vstd::slice::slice_subrange(bytes, 4, end);
        match parse_payload(pv) {
            Some(m) => {
                proof {
                    assert(pv@ == payload(m@));
                    assert(bytes@.subrange(0, end as int) =~= frame(m@)) by {
                        lemma_be32_bytes_at(bytes@);
                        lemma_seg_glue(
                            bytes@,
                            0,
                            4,
                            end as int,
                            be32_bytes(be32_at(bytes@)),
                            payload(m@),
                        );
                        assert(bytes@.subrange(0, 4) =~= be32_bytes(be32_at(bytes@)));
                    }
                    assert forall|mv: MessageV| #![trigger frame_prefix(mv, bytes@)]
                        (wf_msg(mv) && frame_prefix(mv, bytes@)) implies mv == m@ by {
                        assert(pv@ == payload(mv));
                    }
                }
                Ok((m, end))
            },
            None => {
                proof {
                    assert forall|mv: MessageV| #![trigger frame_prefix(mv, bytes@)]
                        !(wf_msg(mv) && frame_prefix(mv, bytes@)) by {
                        if wf_msg(mv) && frame_prefix(mv, bytes@) {
                            assert(pv@ == payload(mv));
                        }
                    }
                }
                Err(DecodeError::Malformed)
            },
        }
    }
}

} // verus!
