//! The wire protocol's message model: a tagged union carried as one JSON
//! object per line, the tag riding in a numeric `type` member (-1 error,
//! 0 status, 1 chat, 2 join, 3 topic, 4 channel list).
use crate::ident::{parse_uuid_chars, uuid_chars, Uuid};
use crate::json::{
    members_view, parse_top, ser_object, JsonValue, Scalar, ScalarV, ValueV,
};
use vstd::prelude::*;

verus! {

broadcast use vstd::string::group_string_axioms;

/// One chat message. `sent` is an epoch timestamp; decoding rejects values
/// outside the representable calendar range (see [`valid_sent`]).
#[allow(non_snake_case)]
#[derive(Debug, Clone, PartialEq, Eq)]
pub struct ChatMessage {
    pub id: Uuid,
    pub inReplyTo: Option<Uuid>,
    pub message: String,
    pub user: String,
    pub directMessageTo: Option<String>,
    pub sent: i64,
}

/// A wire packet. Exactly one variant is active per instance.
#[derive(Debug, Clone, PartialEq, Eq)]
pub enum Packet {
    Error { error: String, clientshutdown: bool },
    Status { status: String },
    Chat(ChatMessage),
    JoinChannel { channel: String },
    ChangeTopic { topic: String },
    ListChannels { channels: Option<Vec<String>> },
}

/// Why a line failed to decode.
#[derive(Clone, Copy, Debug, PartialEq, Eq, Structural)]
pub enum DecodeError {
    /// The line is not one well-formed JSON object.
    MalformedJson,
    /// A field the variant requires is absent or has the wrong shape.
    MissingField,
    /// The `type` discriminant is an integer no variant claims.
    UnknownPacketType,
    /// An identifier field is not a well-formed hyphenated id.
    InvalidId,
    /// The `sent` field is not interpretable as a timestamp.
    InvalidTimestamp,
}

/// Mathematical model of a chat message.
#[verifier::ext_equal]
pub struct ChatMessageV {
    pub id: u128,
    pub in_reply_to: Option<u128>,
    pub message: Seq<char>,
    pub user: Seq<char>,
    pub direct_message_to: Option<Seq<char>>,
    pub sent: i64,
}

/// Mathematical model of a packet.
#[verifier::ext_equal]
pub enum PacketV {
    Error { error: Seq<char>, clientshutdown: bool },
    Status { status: Seq<char> },
    Chat(ChatMessageV),
    JoinChannel { channel: Seq<char> },
    ChangeTopic { topic: Seq<char> },
    ListChannels { channels: Option<Seq<Seq<char>>> },
}

impl View for ChatMessage {
    type V = ChatMessageV;

    open spec fn view(&self) -> ChatMessageV {
        ChatMessageV {
            id: self.id.value,
            in_reply_to: match self.inReplyTo {
                Some(r) => Some(r.value),
                None => None,
            },
            message: self.message@,
            user: self.user@,
            direct_message_to: match self.directMessageTo {
                Some(ref d) => Some(d@),
                None => None,
            },
            sent: self.sent,
        }
    }
}

impl View for Packet {
    type V = PacketV;

    open spec fn view(&self) -> PacketV {
        match self {
            Packet::Error { error, clientshutdown } => PacketV::Error {
                error: error@,
                clientshutdown: *clientshutdown,
            },
            Packet::Status { status } => PacketV::Status { status: status@ },
            Packet::Chat(m) => PacketV::Chat(m@),
            Packet::JoinChannel { channel } => PacketV::JoinChannel { channel: channel@ },
            Packet::ChangeTopic { topic } => PacketV::ChangeTopic { topic: topic@ },
            Packet::ListChannels { channels } => PacketV::ListChannels {
                channels: match channels {
                    Some(cs) => Some(cs@.map_values(|c: String| c@)),
                    None => None,
                },
            },
        }
    }
}

/// `sent` values that name a representable instant: epoch milliseconds
/// within the years -9999 through 9999.
pub open spec fn valid_sent(sent: int) -> bool {
    -377_705_116_800_000 <= sent <= 253_402_300_799_999
}

/// An instant a valid `sent` field names: milliseconds since the epoch.
#[derive(Clone, Copy, Debug, PartialEq, Eq, Structural)]
pub struct Timestamp {
    pub millis: i64,
}

impl ChatMessage {
    /// The message's timestamp, when `sent` is interpretable as one.
    pub fn datetime(&self) -> (r: Result<Timestamp, DecodeError>)
        ensures
            valid_sent(self.sent as int) ==> r == Ok::<Timestamp, DecodeError>(
                Timestamp { millis: self.sent },
            ),
            !valid_sent(self.sent as int) ==> r == Err::<Timestamp, DecodeError>(
                DecodeError::InvalidTimestamp,
            ),
    {
        if -377_705_116_800_000i64 <= self.sent && self.sent <= 253_402_300_799_999i64 {
            Ok(Timestamp { millis: self.sent })
        } else {
            Err(DecodeError::InvalidTimestamp)
        }
    }
}

/// The object members a chat packet carries, in encode order. Absent
/// optional fields are omitted entirely.
pub open spec fn chat_members(m: ChatMessageV) -> Seq<(Seq<char>, ValueV)> {
    seq![
        ("type"@, ValueV::Sc(ScalarV::Int(1))),
        ("id"@, ValueV::Sc(ScalarV::Str(uuid_chars(m.id as int)))),
    ] + (match m.in_reply_to {
        Some(r) => seq![("inReplyTo"@, ValueV::Sc(ScalarV::Str(uuid_chars(r as int))))],
        None => Seq::empty(),
    }) + seq![
        ("message"@, ValueV::Sc(ScalarV::Str(m.message))),
        ("user"@, ValueV::Sc(ScalarV::Str(m.user))),
    ] + (match m.direct_message_to {
        Some(d) => seq![("directMessageTo"@, ValueV::Sc(ScalarV::Str(d)))],
        None => Seq::empty(),
    }) + seq![("sent"@, ValueV::Sc(ScalarV::Int(m.sent as int)))]
}

/// The object members a packet is encoded with: the `type` discriminant
/// first, then the variant's natural fields.
pub open spec fn wire_members(p: PacketV) -> Seq<(Seq<char>, ValueV)> {
    match p {
        PacketV::Error { error, clientshutdown } => seq![
            ("type"@, ValueV::Sc(ScalarV::Int(-1))),
            ("error"@, ValueV::Sc(ScalarV::Str(error))),
            ("clientshutdown"@, ValueV::Sc(ScalarV::Bool(clientshutdown))),
        ],
        PacketV::Status { status } => seq![
            ("type"@, ValueV::Sc(ScalarV::Int(0))),
            ("status"@, ValueV::Sc(ScalarV::Str(status))),
        ],
        PacketV::Chat(m) => chat_members(m),
        PacketV::JoinChannel { channel } => seq![
            ("type"@, ValueV::Sc(ScalarV::Int(2))),
            ("channel"@, ValueV::Sc(ScalarV::Str(channel))),
        ],
        PacketV::ChangeTopic { topic } => seq![
            ("type"@, ValueV::Sc(ScalarV::Int(3))),
            ("topic"@, ValueV::Sc(ScalarV::Str(topic))),
        ],
        PacketV::ListChannels { channels } => match channels {
            None => seq![("type"@, ValueV::Sc(ScalarV::Int(4)))],
            Some(cs) => seq![
                ("type"@, ValueV::Sc(ScalarV::Int(4))),
                ("channels"@, ValueV::Arr(cs.map_values(|c: Seq<char>| ScalarV::Str(c)))),
            ],
        },
    }
}

/// The encoding of a packet: its object, then exactly one newline.
pub open spec fn encode_packet(p: PacketV) -> Seq<u8> {
    ser_object(wire_members(p)) + seq![0x0au8]
}

/// The member with the given key, if any; of duplicates the last wins,
/// as it does when the line is read into a JSON object map.
pub open spec fn lookup(ms: Seq<(Seq<char>, ValueV)>, key: Seq<char>) -> Option<ValueV>
    decreases ms.len(),
{
    if ms.len() == 0 {
        None
    } else if ms.last().0 == key {
        Some(ms.last().1)
    } else {
        lookup(ms.drop_last(), key)
    }
}

/// The member's string content, when the member is present and is a string.
pub open spec fn req_str(ms: Seq<(Seq<char>, ValueV)>, key: Seq<char>) -> Option<Seq<char>> {
    match lookup(ms, key) {
        Some(ValueV::Sc(ScalarV::Str(s))) => Some(s),
        _ => None,
    }
}

pub open spec fn all_str(es: Seq<ScalarV>) -> bool {
    forall|k: int| 0 <= k < es.len() ==> (#[trigger] es[k]) is Str
}

pub open spec fn strs_of(es: Seq<ScalarV>) -> Seq<Seq<char>> {
    es.map_values(|e: ScalarV| e->Str_0)
}

/// Remaining chat fields, once the id and reply-to are settled.
pub open spec fn decode_chat_rest(
    ms: Seq<(Seq<char>, ValueV)>,
    id: u128,
    rep: Option<u128>,
) -> Result<PacketV, DecodeError> {
    match (req_str(ms, "message"@), req_str(ms, "user"@)) {
        (Some(msg), Some(usr)) => {
            let dmt = req_str(ms, "directMessageTo"@);
            match lookup(ms, "sent"@) {
                Some(ValueV::Sc(ScalarV::Int(t))) => if valid_sent(t) {
                    Ok(
                        PacketV::Chat(
                            ChatMessageV {
                                id: id,
                                in_reply_to: rep,
                                message: msg,
                                user: usr,
                                direct_message_to: dmt,
                                sent: t as i64,
                            },
                        ),
                    )
                } else {
                    Err(DecodeError::InvalidTimestamp)
                },
                _ => Err(DecodeError::MissingField),
            }
        },
        _ => Err(DecodeError::MissingField),
    }
}

pub open spec fn decode_chat(ms: Seq<(Seq<char>, ValueV)>) -> Result<PacketV, DecodeError> {
    match req_str(ms, "id"@) {
        None => Err(DecodeError::MissingField),
        Some(ids) => match parse_uuid_chars(ids) {
            None => Err(DecodeError::InvalidId),
            Some(id) => match lookup(ms, "inReplyTo"@) {
                Some(ValueV::Sc(ScalarV::Str(rs))) => match parse_uuid_chars(rs) {
                    None => Err(DecodeError::InvalidId),
                    Some(r) => decode_chat_rest(ms, id, Some(r)),
                },
                _ => decode_chat_rest(ms, id, None),
            },
        },
    }
}

pub open spec fn decode_channels(ms: Seq<(Seq<char>, ValueV)>) -> Result<PacketV, DecodeError> {
    match lookup(ms, "channels"@) {
        Some(ValueV::Arr(es)) => if all_str(es) {
            Ok(PacketV::ListChannels { channels: Some(strs_of(es)) })
        } else {
            Err(DecodeError::MissingField)
        },
        _ => Ok(PacketV::ListChannels { channels: None }),
    }
}

/// Variant dispatch over a parsed object, by the `type` member.
pub open spec fn decode_members(ms: Seq<(Seq<char>, ValueV)>) -> Result<PacketV, DecodeError> {
    match lookup(ms, "type"@) {
        Some(ValueV::Sc(ScalarV::Int(t))) => if t == -1 {
            match req_str(ms, "error"@) {
                Some(e) => match lookup(ms, "clientshutdown"@) {
                    Some(ValueV::Sc(ScalarV::Bool(b))) => Ok(
                        PacketV::Error { error: e, clientshutdown: b },
                    ),
                    Some(ValueV::Sc(ScalarV::Int(i))) => Ok(
                        PacketV::Error { error: e, clientshutdown: i == 1 },
                    ),
                    _ => Err(DecodeError::MissingField),
                },
                None => Err(DecodeError::MissingField),
            }
        } else if t == 0 {
            match req_str(ms, "status"@) {
                Some(s) => Ok(PacketV::Status { status: s }),
                None => Err(DecodeError::MissingField),
            }
        } else if t == 1 {
            decode_chat(ms)
        } else if t == 2 {
            match req_str(ms, "channel"@) {
                Some(c) => Ok(PacketV::JoinChannel { channel: c }),
                None => Err(DecodeError::MissingField),
            }
        } else if t == 3 {
            match req_str(ms, "topic"@) {
                Some(tp) => Ok(PacketV::ChangeTopic { topic: tp }),
                None => Err(DecodeError::MissingField),
            }
        } else if t == 4 {
            decode_channels(ms)
        } else {
            Err(DecodeError::UnknownPacketType)
        },
        _ => Err(DecodeError::MissingField),
    }
}

/// The decoding of one line: parse the object, then dispatch.
pub open spec fn decode_packet(s: Seq<u8>) -> Result<PacketV, DecodeError> {
    match parse_top(s) {
        None => Err(DecodeError::MalformedJson),
        Some(ms) => decode_members(ms),
    }
}

// ------------------------------------------------------------------
// Executable encoding.
// ------------------------------------------------------------------
/// The numeric discriminant each variant is tagged with.
pub open spec fn tag_of(p: PacketV) -> int {
    match p {
        PacketV::Error { .. } => -1,
        PacketV::Status { .. } => 0,
        PacketV::Chat(..) => 1,
        PacketV::JoinChannel { .. } => 2,
        PacketV::ChangeTopic { .. } => 3,
        PacketV::ListChannels { .. } => 4,
    }
}

proof fn lemma_wire_head(p: PacketV)
    ensures
        wire_members(p).len() >= 1,
        wire_members(p)[0] == ("type"@, ValueV::Sc(ScalarV::Int(tag_of(p)))),
{
    match p {
        PacketV::Chat(m) => {
            assert(chat_members(m)[0] == ("type"@, ValueV::Sc(ScalarV::Int(1))));
        },
        _ => {},
    }
}

fn push_member(ms: &mut Vec<(String, JsonValue)>, key: &str, val: JsonValue)
    ensures
        members_view(final(ms)@) == members_view(old(ms)@) + seq![(key@, val@)],
{
    let ghost kv = (key@, val@);
    ms.push((key.to_owned(), val));
    proof {
        assert(members_view(ms@) =~~= members_view(old(ms)@) + seq![kv]);
    }
}

fn push_str_member(ms: &mut Vec<(String, JsonValue)>, key: &str, val: String)
    ensures
        members_view(final(ms)@) == members_view(old(ms)@) + seq![
            (key@, ValueV::Sc(ScalarV::Str(val@))),
        ],
{
    push_member(ms, key, JsonValue::Sc(Scalar::Str(val)));
}

impl Packet {
    /// The packet's natural JSON fields, in encode order, without the
    /// injected `type` discriminant. Optional fields that are absent are
    /// omitted entirely.
    pub fn into_json(&self) -> (r: Vec<(String, JsonValue)>)
        ensures
            members_view(r@) == wire_members(self@).drop_first(),
    {
        let mut ms: Vec<(String, JsonValue)> = Vec::new();
        proof {
            assert(members_view(ms@) =~~= Seq::<(Seq<char>, ValueV)>::empty());
        }
        match self {
            Packet::Error { error, clientshutdown } => {
                push_str_member(&mut ms, "error", error.clone());
                push_member(&mut ms, "clientshutdown", JsonValue::Sc(Scalar::Bool(*clientshutdown)));
                proof {
                    assert(members_view(ms@) =~~= wire_members(self@).drop_first());
                }
            },
            Packet::Status { status } => {
                push_str_member(&mut ms, "status", status.clone());
                proof {
                    assert(members_view(ms@) =~~= wire_members(self@).drop_first());
                }
            },
            Packet::Chat(m) => {
                push_str_member(&mut ms, "id", m.id.to_hyphenated());
                if let Some(r) = &m.inReplyTo {
                    push_str_member(&mut ms, "inReplyTo", r.to_hyphenated());
                }
                push_str_member(&mut ms, "message", m.message.clone());
                push_str_member(&mut ms, "user", m.user.clone());
                if let Some(d) = &m.directMessageTo {
                    push_str_member(&mut ms, "directMessageTo", d.clone());
                }
                push_member(&mut ms, "sent", JsonValue::Sc(Scalar::Int(m.sent)));
                proof {
                    assert(members_view(ms@) =~~= chat_members(m@).drop_first());
                }
            },
            Packet::JoinChannel { channel } => {
                push_str_member(&mut ms, "channel", channel.clone());
                proof {
                    assert(members_view(ms@) =~~= wire_members(self@).drop_first());
                }
            },
            Packet::ChangeTopic { topic } => {
                push_str_member(&mut ms, "topic", topic.clone());
                proof {
                    assert(members_view(ms@) =~~= wire_members(self@).drop_first());
                }
            },
            Packet::ListChannels { channels } => {
                match channels {
                    None => {
                        proof {
                            assert(members_view(ms@) =~~= wire_members(self@).drop_first());
                        }
                    },
                    Some(cs) => {
                        let mut es: Vec<Scalar> = Vec::new();
                        let n = cs.len();
                        let mut i: usize = 0;
                        while i < n
                            invariant
                                i <= n,
                                n == cs@.len(),
                                es@.len() == i,
                                forall|q: int|
                                    0 <= q < i ==> (#[trigger] es@[q])@ == ScalarV::Str(cs@[q]@),
                            decreases n - i,
                        {
                            es.push(Scalar::Str(cs[i].clone()));
                            i = i + 1;
                        }
                        push_member(&mut ms, "channels", JsonValue::Arr(es));
                        proof {
                            assert(es@.map_values(|e: Scalar| e@) =~~= cs@.map_values(
                                |c: String| c@,
                            ).map_values(|c: Seq<char>| ScalarV::Str(c)));
                            assert(members_view(ms@) =~~= wire_members(self@).drop_first());
                        }
                    },
                }
            },
        }
        ms
    }

    /// Encodes the packet: its JSON object with the injected `type`
    /// member first, terminated by exactly one newline byte.
    pub fn into_bytes(&self) -> (r: Vec<u8>)
        ensures
            r@ == encode_packet(self@),
    {
        let tag: i64 = match self {
            Packet::Error { .. } => -1,
            Packet::Status { .. } => 0,
            Packet::Chat(..) => 1,
            Packet::JoinChannel { .. } => 2,
            Packet::ChangeTopic { .. } => 3,
            Packet::ListChannels { .. } => 4,
        };
        let mut ms: Vec<(String, JsonValue)> = Vec::new();
        push_member(&mut ms, "type", JsonValue::Sc(Scalar::Int(tag)));
        let ghost pre = ms@;
        let mut fields = self.into_json();
        let ghost fsnap = fields@;
        ms.append(&mut fields);
        proof {
            lemma_wire_head(self@);
            let w = wire_members(self@);
            assert(ms@ == pre + fsnap);
            assert(members_view(fsnap) == w.drop_first());
            assert(members_view(fsnap).len() == fsnap.len());
            assert(w.len() == 1 + w.drop_first().len());
            assert(members_view(ms@).len() == ms@.len());
            assert(members_view(ms@).len() == w.len());
            assert forall|i: int| 0 <= i < w.len() implies members_view(ms@)[i] =~~= w[i] by {
                if i == 0 {
                    assert(ms@[0] == pre[0]);
                    assert(members_view(ms@)[0] == members_view(pre)[0]);
                } else {
                    assert(ms@[i] == fsnap[i - 1]);
                    assert(members_view(ms@)[i] == members_view(fsnap)[i - 1]);
                    assert(w[i] == w.drop_first()[i - 1]);
                }
            }
            assert(members_view(ms@) =~~= wire_members(self@));
        }
        let mut out: Vec<u8> = Vec::new();
        crate::json::ser_object_exec(&ms, &mut out);
        out.push(0x0a);
        proof {
            assert(out@ =~= encode_packet(self@));
        }
        out
    }
}

// ------------------------------------------------------------------
// Executable decoding.
// ------------------------------------------------------------------
fn lookup_upto<'a>(ms: &'a Vec<(String, JsonValue)>, i: usize, key: &str) -> (r: Option<
    &'a JsonValue,
>)
    requires
        i <= ms@.len(),
    ensures
        (match r {
            Some(v) => lookup(members_view(ms@).take(i as int), key@) == Some(v@),
            None => lookup(members_view(ms@).take(i as int), key@) is None,
        }),
    decreases i,
{
    let ghost mv = members_view(ms@);
    if i == 0 {
        proof {
            assert(mv.take(0) =~= Seq::<(Seq<char>, ValueV)>::empty());
        }
        None
    } else {
        proof {
            assert(mv.take(i as int).last() == mv[i - 1]);
            assert(mv.take(i as int).drop_last() =~= mv.take(i - 1));
        }
        if crate::json::str_eq(ms[i - 1].0.as_str(), key) {
            Some(&ms[i - 1].1)
        } else {
            lookup_upto(ms, i - 1, key)
        }
    }
}

fn lookup_exec<'a>(ms: &'a Vec<(String, JsonValue)>, key: &str) -> (r: Option<&'a JsonValue>)
    ensures
        (match r {
            Some(v) => lookup(members_view(ms@), key@) == Some(v@),
            None => lookup(members_view(ms@), key@) is None,
        }),
{
    proof {
        assert(members_view(ms@).take(ms@.len() as int) =~= members_view(ms@));
    }
    lookup_upto(ms, ms.len(), key)
}

fn req_str_exec(ms: &Vec<(String, JsonValue)>, key: &str) -> (r: Option<String>)
    ensures
        (match r {
            Some(s) => req_str(members_view(ms@), key@) == Some(s@),
            None => req_str(members_view(ms@), key@) is None,
        }),
{
    match lookup_exec(ms, key) {
        Some(JsonValue::Sc(Scalar::Str(s))) => Some(s.clone()),
        _ => None,
    }
}

impl Packet {
    /// Decodes one line. Accepts whitespace around the object, the
    /// trailing newline included; every failure is reported as the
    /// matching [`DecodeError`], never a panic.
    #[verifier::loop_isolation(false)]
    pub fn from_bytes(bytes: &[u8]) -> (r: Result<Packet, DecodeError>)
        ensures
            (match r {
                Ok(p) => decode_packet(bytes@) matches Ok(pv) && p@ == pv,
                Err(e) => decode_packet(bytes@) == Err::<PacketV, DecodeError>(e),
            }),
    {
        let ms = match crate::json::parse_top_exec(bytes) {
            Some(ms) => ms,
            None => {
                return Err(DecodeError::MalformedJson);
            },
        };
        let t: i64 = match lookup_exec(&ms, "type") {
            Some(JsonValue::Sc(Scalar::Int(t))) => *t,
            _ => {
                return Err(DecodeError::MissingField);
            },
        };
        if t == -1 {
            let e = match req_str_exec(&ms, "error") {
                Some(e) => e,
                None => {
                    return Err(DecodeError::MissingField);
                },
            };
            match lookup_exec(&ms, "clientshutdown") {
                Some(JsonValue::Sc(Scalar::Bool(b))) => Ok(
                    Packet::Error { error: e, clientshutdown: *b },
                ),
                Some(JsonValue::Sc(Scalar::Int(i))) => Ok(
                    Packet::Error { error: e, clientshutdown: *i == 1 },
                ),
                _ => Err(DecodeError::MissingField),
            }
        } else if t == 0 {
            match req_str_exec(&ms, "status") {
                Some(s) => Ok(Packet::Status { status: s }),
                None => Err(DecodeError::MissingField),
            }
        } else if t == 1 {
            let ids = match req_str_exec(&ms, "id") {
                Some(s) => s,
                None => {
                    return Err(DecodeError::MissingField);
                },
            };
            let id = match Uuid::parse(ids.as_str()) {
                Some(u) => u,
                None => {
                    return Err(DecodeError::InvalidId);
                },
            };
            let rep: Option<Uuid> = match lookup_exec(&ms, "inReplyTo") {
                Some(JsonValue::Sc(Scalar::Str(rs))) => match Uuid::parse(rs.as_str()) {
                    Some(u) => Some(u),
                    None => {
                        return Err(DecodeError::InvalidId);
                    },
                },
                _ => None,
            };
            let msg = match req_str_exec(&ms, "message") {
                Some(s) => s,
                None => {
                    return Err(DecodeError::MissingField);
                },
            };
            let usr = match req_str_exec(&ms, "user") {
                Some(s) => s,
                None => {
                    return Err(DecodeError::MissingField);
                },
            };
            let dmt = req_str_exec(&ms, "directMessageTo");
            let sent: i64 = match lookup_exec(&ms, "sent") {
                Some(JsonValue::Sc(Scalar::Int(t))) => *t,
                _ => {
                    return Err(DecodeError::MissingField);
                },
            };
            if -377_705_116_800_000i64 <= sent && sent <= 253_402_300_799_999i64 {
                Ok(
                    Packet::Chat(
                        ChatMessage {
                            id: id,
                            inReplyTo: rep,
                            message: msg,
                            user: usr,
                            directMessageTo: dmt,
                            sent: sent,
                        },
                    ),
                )
            } else {
                Err(DecodeError::InvalidTimestamp)
            }
        } else if t == 2 {
            match req_str_exec(&ms, "channel") {
                Some(c) => Ok(Packet::JoinChannel { channel: c }),
                None => Err(DecodeError::MissingField),
            }
        } else if t == 3 {
            match req_str_exec(&ms, "topic") {
                Some(tp) => Ok(Packet::ChangeTopic { topic: tp }),
                None => Err(DecodeError::MissingField),
            }
        } else if t == 4 {
            match lookup_exec(&ms, "channels") {
                Some(v) => match v {
                    JsonValue::Arr(es) => {
                    let ghost esv = es@.map_values(|e: Scalar| e@);
                    proof {
                        assert(v@ =~~= ValueV::Arr(esv));
                    }
                    let mut out: Vec<String> = Vec::new();
                    let n = es.len();
                    let mut i: usize = 0;
                    while i < n
                        invariant
                            i <= n,
                            n == es@.len(),
                            esv == es@.map_values(|e: Scalar| e@),
                            out@.len() == i,
                            forall|q: int| 0 <= q < i ==> (#[trigger] esv[q]) is Str,
                            forall|q: int|
                                0 <= q < i ==> (#[trigger] out@[q])@ == esv[q]->Str_0,
                        decreases n - i,
                    {
                        match &es[i] {
                            Scalar::Str(s) => {
                                out.push(s.clone());
                            },
                            _ => {
                                proof {
                                    assert(esv[i as int] == es@[i as int]@);
                                    assert(!all_str(esv));
                                }
                                return Err(DecodeError::MissingField);
                            },
                        }
                        i = i + 1;
                    }
                    proof {
                        assert(all_str(esv));
                        assert(out@.map_values(|c: String| c@) =~~= strs_of(esv));
                    }
                    Ok(Packet::ListChannels { channels: Some(out) })
                    },
                    _ => Ok(Packet::ListChannels { channels: None }),
                },
                None => Ok(Packet::ListChannels { channels: None }),
            }
        } else {
            Err(DecodeError::UnknownPacketType)
        }
    }
}

// ------------------------------------------------------------------
// Round trip: decoding inverts encoding.
// ------------------------------------------------------------------
/// Packets whose every field value the wire can carry back: a chat
/// message's `sent` must be a valid timestamp (decoding rejects others).
pub open spec fn wf_packet(p: PacketV) -> bool {
    match p {
        PacketV::Chat(m) => valid_sent(m.sent as int),
        _ => true,
    }
}

proof fn lemma_lookup_append(a: Seq<(Seq<char>, ValueV)>, b: Seq<(Seq<char>, ValueV)>, key: Seq<char>)
    ensures
        lookup(a + b, key) == (match lookup(b, key) {
            Some(v) => Some(v),
            None => lookup(a, key),
        }),
    decreases b.len(),
{
    if b.len() == 0 {
        assert(a + b =~= a);
    } else {
        assert((a + b).len() > 0);
        assert((a + b).last() == b.last());
        assert((a + b).drop_last() =~= a + b.drop_last());
        lemma_lookup_append(a, b.drop_last(), key);
    }
}


/// A decoded chat object rebuilds the message it was encoded from.
#[verifier::rlimit(100)]
#[verifier::spinoff_prover]
proof fn lemma_decode_chat(m: ChatMessageV)
    requires
        valid_sent(m.sent as int),
    ensures
        decode_members(chat_members(m)) == Ok::<PacketV, DecodeError>(PacketV::Chat(m)),
{
    reveal_strlit("type");
    reveal_strlit("id");
    reveal_strlit("inReplyTo");
    reveal_strlit("message");
    reveal_strlit("user");
    reveal_strlit("directMessageTo");
    reveal_strlit("sent");
    reveal_with_fuel(lookup, 5);
    assert("type"@.len() == 4);
    assert("id"@.len() == 2);
    assert("inReplyTo"@.len() == 9);
    assert("message"@.len() == 7);
    assert("user"@.len() == 4);
    assert("directMessageTo"@.len() == 15);
    assert("sent"@.len() == 4);
    assert("type"@[0] == 't' && "user"@[0] == 'u' && "sent"@[0] == 's');
    let ms = chat_members(m);
    let s1 = seq![
        ("type"@, ValueV::Sc(ScalarV::Int(1))),
        ("id"@, ValueV::Sc(ScalarV::Str(uuid_chars(m.id as int)))),
    ];
    let b = (match m.in_reply_to {
        Some(r) => seq![("inReplyTo"@, ValueV::Sc(ScalarV::Str(uuid_chars(r as int))))],
        None => Seq::<(Seq<char>, ValueV)>::empty(),
    });
    let s2 = seq![
        ("message"@, ValueV::Sc(ScalarV::Str(m.message))),
        ("user"@, ValueV::Sc(ScalarV::Str(m.user))),
    ];
    let d = (match m.direct_message_to {
        Some(dm) => seq![("directMessageTo"@, ValueV::Sc(ScalarV::Str(dm)))],
        None => Seq::<(Seq<char>, ValueV)>::empty(),
    });
    let s3 = seq![("sent"@, ValueV::Sc(ScalarV::Int(m.sent as int)))];
    assert(ms == s1 + b + s2 + d + s3);
    assert(s1.drop_last() =~= seq![s1[0]]);
    assert(s2.drop_last() =~= seq![s2[0]]);
    crate::ident::lemma_uuid_round_trip(m.id);
    if let Some(r) = m.in_reply_to {
        crate::ident::lemma_uuid_round_trip(r);
    }
    lemma_lookup_append(s1 + b + s2 + d, s3, "type"@);
    lemma_lookup_append(s1 + b + s2, d, "type"@);
    lemma_lookup_append(s1 + b, s2, "type"@);
    lemma_lookup_append(s1, b, "type"@);
    assert(lookup(ms, "type"@) == Some(ValueV::Sc(ScalarV::Int(1))));
    lemma_lookup_append(s1 + b + s2 + d, s3, "id"@);
    lemma_lookup_append(s1 + b + s2, d, "id"@);
    lemma_lookup_append(s1 + b, s2, "id"@);
    lemma_lookup_append(s1, b, "id"@);
    assert(lookup(ms, "id"@) == Some(ValueV::Sc(ScalarV::Str(uuid_chars(m.id as int)))));
    lemma_lookup_append(s1 + b + s2 + d, s3, "inReplyTo"@);
    lemma_lookup_append(s1 + b + s2, d, "inReplyTo"@);
    lemma_lookup_append(s1 + b, s2, "inReplyTo"@);
    lemma_lookup_append(s1, b, "inReplyTo"@);
    assert(lookup(ms, "inReplyTo"@) == (match m.in_reply_to {
        Some(r) => Some(ValueV::Sc(ScalarV::Str(uuid_chars(r as int)))),
        None => None,
    }));
    lemma_lookup_append(s1 + b + s2 + d, s3, "message"@);
    lemma_lookup_append(s1 + b + s2, d, "message"@);
    lemma_lookup_append(s1 + b, s2, "message"@);
    lemma_lookup_append(s1, b, "message"@);
    assert(lookup(ms, "message"@) == Some(ValueV::Sc(ScalarV::Str(m.message))));
    lemma_lookup_append(s1 + b + s2 + d, s3, "user"@);
    lemma_lookup_append(s1 + b + s2, d, "user"@);
    lemma_lookup_append(s1 + b, s2, "user"@);
    lemma_lookup_append(s1, b, "user"@);
    assert(lookup(ms, "user"@) == Some(ValueV::Sc(ScalarV::Str(m.user))));
    lemma_lookup_append(s1 + b + s2 + d, s3, "directMessageTo"@);
    lemma_lookup_append(s1 + b + s2, d, "directMessageTo"@);
    lemma_lookup_append(s1 + b, s2, "directMessageTo"@);
    lemma_lookup_append(s1, b, "directMessageTo"@);
    assert(lookup(ms, "directMessageTo"@) == (match m.direct_message_to {
        Some(dm) => Some(ValueV::Sc(ScalarV::Str(dm))),
        None => None,
    }));
    lemma_lookup_append(s1 + b + s2 + d, s3, "sent"@);
    lemma_lookup_append(s1 + b + s2, d, "sent"@);
    lemma_lookup_append(s1 + b, s2, "sent"@);
    lemma_lookup_append(s1, b, "sent"@);
    assert(lookup(ms, "sent"@) == Some(ValueV::Sc(ScalarV::Int(m.sent as int))));
    assert(decode_chat_rest(ms, m.id, m.in_reply_to) == Ok::<PacketV, DecodeError>(
        PacketV::Chat(m),
    ));
}

/// Every value a packet puts on the wire is serializable: the tag and the
/// timestamp are in-range integers, everything else a string, boolean, or
/// array of strings.
proof fn lemma_wire_members_wf(p: PacketV)
    ensures
        crate::json::wf_members(wire_members(p)),
{
    let ms = wire_members(p);
    assert forall|k: int| 0 <= k < ms.len() implies crate::json::wf_value(ms[k].1) by {
        match p {
            PacketV::Chat(m) => {
                let s1 = seq![
                    ("type"@, ValueV::Sc(ScalarV::Int(1))),
                    ("id"@, ValueV::Sc(ScalarV::Str(uuid_chars(m.id as int)))),
                ];
                let b = (match m.in_reply_to {
                    Some(r) => seq![
                        ("inReplyTo"@, ValueV::Sc(ScalarV::Str(uuid_chars(r as int)))),
                    ],
                    None => Seq::<(Seq<char>, ValueV)>::empty(),
                });
                let s2 = seq![
                    ("message"@, ValueV::Sc(ScalarV::Str(m.message))),
                    ("user"@, ValueV::Sc(ScalarV::Str(m.user))),
                ];
                let d = (match m.direct_message_to {
                    Some(dm) => seq![("directMessageTo"@, ValueV::Sc(ScalarV::Str(dm)))],
                    None => Seq::<(Seq<char>, ValueV)>::empty(),
                });
                let s3 = seq![("sent"@, ValueV::Sc(ScalarV::Int(m.sent as int)))];
                assert(ms == s1 + b + s2 + d + s3);
                assert(ms[k] == (s1 + b + s2 + d + s3)[k]);
            },
            PacketV::ListChannels { channels } => {
                if let Some(cs) = channels {
                    if k == 1 {
                        let es = cs.map_values(|c: Seq<char>| ScalarV::Str(c));
                        assert(forall|q: int| 0 <= q < es.len() ==> (#[trigger] es[q]) is Str);
                    }
                }
            },
            _ => {},
        }
    }
}

/// Decoding inverts encoding: for every packet all of whose field values
/// are wire-representable, decoding the encoded line yields the packet
/// back, `None` and empty channel lists included.
#[verifier::rlimit(100)]
#[verifier::spinoff_prover]
pub proof fn lemma_decode_inverts_encode(p: PacketV)
    requires
        wf_packet(p),
    ensures
        decode_packet(encode_packet(p)) == Ok::<PacketV, DecodeError>(p),
{
    reveal_with_fuel(lookup, 5);
    let ms = wire_members(p);
    lemma_wire_head(p);
    lemma_wire_members_wf(p);
    assert(crate::json::is_ws(0x0a));
    crate::json::lemma_parse_top_of_ser(ms, seq![0x0au8]);
    assert(encode_packet(p) == crate::json::ser_object(ms) + seq![0x0au8]);
    assert(parse_top(encode_packet(p)) == Some(ms));
    reveal_strlit("type");
    assert("type"@.len() == 4);
    match p {
        PacketV::Error { error, clientshutdown } => {
            reveal_strlit("error");
            reveal_strlit("clientshutdown");
            assert("error"@.len() == 5);
            assert("clientshutdown"@.len() == 14);
            let e0 = ("type"@, ValueV::Sc(ScalarV::Int(-1)));
            let e1 = ("error"@, ValueV::Sc(ScalarV::Str(error)));
            let e2 = ("clientshutdown"@, ValueV::Sc(ScalarV::Bool(clientshutdown)));
            assert(ms.drop_last() =~= seq![e0, e1]);
            assert(seq![e0, e1].drop_last() =~= seq![e0]);
            assert(lookup(ms, "type"@) == Some(ValueV::Sc(ScalarV::Int(-1))));
            assert(lookup(ms, "error"@) == Some(e1.1));
            assert(lookup(ms, "clientshutdown"@) == Some(e2.1));
        },
        PacketV::Status { status } => {
            reveal_strlit("status");
            assert("status"@.len() == 6);
            let e1 = ("status"@, ValueV::Sc(ScalarV::Str(status)));
            assert(ms.drop_last() =~= seq![("type"@, ValueV::Sc(ScalarV::Int(0)))]);
            assert(lookup(ms, "type"@) == Some(ValueV::Sc(ScalarV::Int(0))));
            assert(lookup(ms, "status"@) == Some(e1.1));
        },
        PacketV::Chat(m) => {
            lemma_decode_chat(m);
        },
        PacketV::JoinChannel { channel } => {
            reveal_strlit("channel");
            assert("channel"@.len() == 7);
            let e1 = ("channel"@, ValueV::Sc(ScalarV::Str(channel)));
            assert(ms.drop_last() =~= seq![("type"@, ValueV::Sc(ScalarV::Int(2)))]);
            assert(lookup(ms, "type"@) == Some(ValueV::Sc(ScalarV::Int(2))));
            assert(lookup(ms, "channel"@) == Some(e1.1));
        },
        PacketV::ChangeTopic { topic } => {
            reveal_strlit("topic");
            assert("topic"@.len() == 5);
            let e1 = ("topic"@, ValueV::Sc(ScalarV::Str(topic)));
            assert(ms.drop_last() =~= seq![("type"@, ValueV::Sc(ScalarV::Int(3)))]);
            assert(lookup(ms, "type"@) == Some(ValueV::Sc(ScalarV::Int(3))));
            assert(lookup(ms, "topic"@) == Some(e1.1));
        },
        PacketV::ListChannels { channels } => {
            reveal_strlit("channels");
            assert("channels"@.len() == 8);
            match channels {
                None => {
                    assert(ms.drop_last() =~= Seq::<(Seq<char>, ValueV)>::empty());
                    assert(lookup(ms, "type"@) == Some(ValueV::Sc(ScalarV::Int(4))));
                    assert(lookup(ms, "channels"@) is None);
                },
                Some(cs) => {
                    let es = cs.map_values(|c: Seq<char>| ScalarV::Str(c));
                    let e1 = ("channels"@, ValueV::Arr(es));
                    assert(ms.drop_last() =~= seq![("type"@, ValueV::Sc(ScalarV::Int(4)))]);
                    assert(lookup(ms, "type"@) == Some(ValueV::Sc(ScalarV::Int(4))));
                    assert(lookup(ms, "channels"@) == Some(e1.1));
                    assert(all_str(es));
                    assert(strs_of(es) =~~= cs);
                },
            }
        },
    }
}

} // verus!
