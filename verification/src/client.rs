//! The client core around the codec: the shared state the dispatcher
//! mutates (channel registry, active channel, topic, message store), the
//! dispatch rules the read loop follows, the outbound queue the write loop
//! drains, and the reconnect supervisor's lifecycle state machine. All of
//! it is pure logic from values to values; the surrounding process does
//! the socket work and feeds events in.
use crate::channel_name::{get_channel_name, join_capture, match_join_status, strip_user_count};
use crate::packet::{
    decode_packet, encode_packet, ChatMessage, ChatMessageV, DecodeError, Packet, PacketV,
};
use vstd::prelude::*;

verus! {

// ------------------------------------------------------------------
// Message store: channel name -> ordered, append-only message history.
// ------------------------------------------------------------------
/// Messages filed under a key in an association sequence; the empty
/// sequence when the key is absent. The first entry with the key decides.
pub open spec fn msgs_of(es: Seq<(Seq<char>, Seq<ChatMessageV>)>, k: Seq<char>) -> Seq<
    ChatMessageV,
>
    decreases es.len(),
{
    if es.len() == 0 {
        Seq::empty()
    } else if es[0].0 == k {
        es[0].1
    } else {
        msgs_of(es.drop_first(), k)
    }
}

/// In-memory history per channel, keyed by display name.
pub struct MessageStore {
    entries: Vec<(String, Vec<ChatMessage>)>,
}

/// Model of one store entry.
pub open spec fn entry_view(e: (String, Vec<ChatMessage>)) -> (Seq<char>, Seq<ChatMessageV>) {
    (e.0@, e.1@.map_values(|m: ChatMessage| m@))
}

impl View for MessageStore {
    type V = Seq<(Seq<char>, Seq<ChatMessageV>)>;

    closed spec fn view(&self) -> Seq<(Seq<char>, Seq<ChatMessageV>)> {
        self.entries@.map_values(|e: (String, Vec<ChatMessage>)| entry_view(e))
    }
}

/// An exact copy of a message (`String` fields cloned).
fn copy_message(m: &ChatMessage) -> (r: ChatMessage)
    ensures
        r@ == m@,
{
    ChatMessage {
        id: m.id,
        inReplyTo: m.inReplyTo,
        message: m.message.clone(),
        user: m.user.clone(),
        directMessageTo: match &m.directMessageTo {
            Some(d) => Some(d.clone()),
            None => None,
        },
        sent: m.sent,
    }
}

proof fn lemma_msgs_of_update(
    es: Seq<(Seq<char>, Seq<ChatMessageV>)>,
    i: int,
    v: Seq<ChatMessageV>,
)
    requires
        0 <= i < es.len(),
        forall|j: int| 0 <= j < i ==> es[j].0 != es[i].0,
    ensures
        msgs_of(es.update(i, (es[i].0, v)), es[i].0) == v,
        forall|q: Seq<char>|
            q != es[i].0 ==> msgs_of(es.update(i, (es[i].0, v)), q) == msgs_of(es, q),
    decreases es.len(),
{
    let es2 = es.update(i, (es[i].0, v));
    if i == 0 {
        assert(es2[0] == (es[i].0, v));
        assert(msgs_of(es2, es[i].0) == v);
        assert forall|q: Seq<char>| q != es[i].0 implies msgs_of(es2, q) == msgs_of(es, q) by {
            assert(es2.drop_first() =~= es.drop_first());
        }
    } else {
        assert(es2.drop_first() =~= es.drop_first().update(i - 1, (es[i].0, v)));
        lemma_msgs_of_update(es.drop_first(), i - 1, v);
        assert(es.drop_first()[i - 1] == es[i]);
        assert(es2[0] == es[0]);
        assert(es[0].0 != es[i].0);
        assert(msgs_of(es2, es[i].0) == msgs_of(es2.drop_first(), es[i].0));
        assert(msgs_of(es2, es[i].0) == v);
        assert forall|q: Seq<char>| q != es[i].0 implies msgs_of(es2, q) == msgs_of(es, q) by {
            if q == es[0].0 {
                assert(msgs_of(es2, q) == es2[0].1);
                assert(msgs_of(es, q) == es[0].1);
            } else {
                assert(msgs_of(es2, q) == msgs_of(es2.drop_first(), q));
                assert(msgs_of(es, q) == msgs_of(es.drop_first(), q));
            }
        }
    }
}

proof fn lemma_msgs_of_push(
    es: Seq<(Seq<char>, Seq<ChatMessageV>)>,
    k: Seq<char>,
    v: Seq<ChatMessageV>,
)
    requires
        forall|j: int| 0 <= j < es.len() ==> es[j].0 != k,
    ensures
        msgs_of(es.push((k, v)), k) == v,
        forall|q: Seq<char>| q != k ==> msgs_of(es.push((k, v)), q) == msgs_of(es, q),
    decreases es.len(),
{
    let es2 = es.push((k, v));
    if es.len() == 0 {
        assert(es2[0] == (k, v));
        assert(es2.drop_first() =~= Seq::<(Seq<char>, Seq<ChatMessageV>)>::empty());
        assert(msgs_of(es2, k) == v);
        assert forall|q: Seq<char>| q != k implies msgs_of(es2, q) == msgs_of(es, q) by {
            assert(msgs_of(es2, q) == msgs_of(es2.drop_first(), q));
        }
    } else {
        assert(es2.drop_first() =~= es.drop_first().push((k, v)));
        lemma_msgs_of_push(es.drop_first(), k, v);
        assert(es2[0] == es[0]);
        assert(es[0].0 != k);
        assert(msgs_of(es2, k) == v);
        assert forall|q: Seq<char>| q != k implies msgs_of(es2, q) == msgs_of(es, q) by {
            if q == es[0].0 {
                assert(msgs_of(es2, q) == es2[0].1);
            } else {
                assert(msgs_of(es2, q) == msgs_of(es2.drop_first(), q));
                assert(msgs_of(es, q) == msgs_of(es.drop_first(), q));
            }
        }
    }
}

proof fn lemma_msgs_of_first(es: Seq<(Seq<char>, Seq<ChatMessageV>)>, i: int)
    requires
        0 <= i < es.len(),
        forall|j: int| 0 <= j < i ==> es[j].0 != es[i].0,
    ensures
        msgs_of(es, es[i].0) == es[i].1,
    decreases i,
{
    if i > 0 {
        lemma_msgs_of_first(es.drop_first(), i - 1);
        assert(es.drop_first()[i - 1] == es[i]);
    }
}

proof fn lemma_msgs_of_absent(es: Seq<(Seq<char>, Seq<ChatMessageV>)>, k: Seq<char>)
    requires
        forall|j: int| 0 <= j < es.len() ==> es[j].0 != k,
    ensures
        msgs_of(es, k) == Seq::<ChatMessageV>::empty(),
    decreases es.len(),
{
    if es.len() > 0 {
        lemma_msgs_of_absent(es.drop_first(), k);
    }
}

impl MessageStore {
    pub fn new() -> (r: MessageStore)
        ensures
            r@ == Seq::<(Seq<char>, Seq<ChatMessageV>)>::empty(),
    {
        let r = MessageStore { entries: Vec::new() };
        proof {
            assert(r@ =~= Seq::<(Seq<char>, Seq<ChatMessageV>)>::empty());
        }
        r
    }

    /// The messages filed under a channel so far, oldest first.
    pub fn messages_in(&self, channel: &str) -> (r: Vec<ChatMessage>)
        ensures
            r@.map_values(|m: ChatMessage| m@) == msgs_of(self@, channel@),
    {
        let n = self.entries.len();
        let mut i: usize = 0;
        while i < n
            invariant
                0 <= i <= n,
                n == self.entries@.len(),
                forall|j: int| 0 <= j < i ==> self@[j].0 != channel@,
            decreases n - i,
        {
            if crate::json::str_eq(self.entries[i].0.as_str(), channel) {
                let src = &self.entries[i].1;
                let m = src.len();
                let mut out: Vec<ChatMessage> = Vec::new();
                let mut q: usize = 0;
                while q < m
                    invariant
                        0 <= q <= m,
                        m == src@.len(),
                        out@.len() == q,
                        forall|j: int| 0 <= j < q ==> (#[trigger] out@[j])@ == src@[j]@,
                    decreases m - q,
                {
                    out.push(copy_message(&src[q]));
                    q = q + 1;
                }
                proof {
                    lemma_msgs_of_first(self@, i as int);
                    assert(self@[i as int].0 == channel@);
                    assert(out@.map_values(|m: ChatMessage| m@) =~~= msgs_of(self@, channel@));
                }
                return out;
            }
            i = i + 1;
        }
        proof {
            lemma_msgs_of_absent(self@, channel@);
        }
        let out: Vec<ChatMessage> = Vec::new();
        proof {
            assert(out@.map_values(|m: ChatMessage| m@) =~~= msgs_of(self@, channel@));
        }
        out
    }

    /// Appends one message to a channel's history, creating the channel's
    /// entry if it is new; every other channel's history is untouched.
    #[verifier::loop_isolation(false)]
    pub fn append(&mut self, channel: &str, m: ChatMessage)
        ensures
            msgs_of(final(self)@, channel@) == msgs_of(old(self)@, channel@).push(m@),
            forall|q: Seq<char>|
                q != channel@ ==> msgs_of(final(self)@, q) == msgs_of(old(self)@, q),
    {
        let ghost mv = m@;
        let n = self.entries.len();
        let mut i: usize = 0;
        while i < n
            invariant
                0 <= i <= n,
                self.entries@.len() == n,
                self@ == old(self)@,
                forall|j: int| 0 <= j < i ==> self@[j].0 != channel@,
            decreases n - i,
        {
            if crate::json::str_eq(self.entries[i].0.as_str(), channel) {
                let ghost before = self@;
                let entry = &self.entries[i];
                let key = entry.0.clone();
                let mut msgs: Vec<ChatMessage> = Vec::new();
                let src = &self.entries[i].1;
                let mcount = src.len();
                let mut q: usize = 0;
                while q < mcount
                    invariant
                        0 <= q <= mcount,
                        mcount == src@.len(),
                        msgs@.len() == q,
                        forall|j: int| 0 <= j < q ==> (#[trigger] msgs@[j])@ == src@[j]@,
                    decreases mcount - q,
                {
                    msgs.push(copy_message(&src[q]));
                    q = q + 1;
                }
                msgs.push(m);
                self.entries[i] = (key, msgs);
                proof {
                    assert(self@ =~~= before.update(
                        i as int,
                        (before[i as int].0, before[i as int].1.push(mv)),
                    ));
                    lemma_msgs_of_first(before, i as int);
                    lemma_msgs_of_update(before, i as int, before[i as int].1.push(mv));
                }
                return ;
            }
            i = i + 1;
        }
        let ghost before = self@;
        let mut msgs: Vec<ChatMessage> = Vec::new();
        msgs.push(m);
        self.entries.push((channel.to_owned(), msgs));
        proof {
            assert(self@ =~~= before.push((channel@, seq![mv])));
            lemma_msgs_of_absent(before, channel@);
            lemma_msgs_of_push(before, channel@, seq![mv]);
            assert(msgs_of(before, channel@).push(mv) =~= seq![mv]);
        }
    }
}

// ------------------------------------------------------------------
// Dispatcher: what one inbound packet does to the shared state.
// ------------------------------------------------------------------
/// The shared state the dispatcher is the single writer of.
pub struct ClientState {
    /// Channel registry: display names, refreshed wholesale.
    pub channels: Vec<String>,
    /// Which channel's history inbound chat is appended to.
    pub active_channel: String,
    /// The current topic.
    pub topic: String,
    /// Per-channel message history.
    pub store: MessageStore,
}

/// Model of the shared state.
pub struct ClientStateV {
    pub channels: Seq<Seq<char>>,
    pub active_channel: Seq<char>,
    pub topic: Seq<char>,
    pub store: Seq<(Seq<char>, Seq<ChatMessageV>)>,
}

impl View for ClientState {
    type V = ClientStateV;

    open spec fn view(&self) -> ClientStateV {
        ClientStateV {
            channels: self.channels@.map_values(|c: String| c@),
            active_channel: self.active_channel@,
            topic: self.topic@,
            store: self.store@,
        }
    }
}

/// What the dispatcher asks its caller to log; no state rides on these.
pub enum DispatchEffect {
    /// Nothing to report.
    Quiet,
    /// An error packet arrived; `clientshutdown` hints the server will
    /// close the socket next.
    LogError { error: String, clientshutdown: bool },
    /// A status line that is not a join announcement: plain information.
    LogStatus { status: String },
    /// An inbound packet from the wrong direction; nothing was changed.
    LogAnomaly,
}

impl ClientState {
    pub fn new() -> (r: ClientState)
        ensures
            r@.channels == Seq::<Seq<char>>::empty(),
            r@.active_channel == Seq::<char>::empty(),
            r@.topic == Seq::<char>::empty(),
            r@.store == Seq::<(Seq<char>, Seq<ChatMessageV>)>::empty(),
    {
        let r = ClientState {
            channels: Vec::new(),
            active_channel: String::new(),
            topic: String::new(),
            store: MessageStore::new(),
        };
        proof {
            assert(r@.channels =~= Seq::<Seq<char>>::empty());
        }
        r
    }
}

/// The dispatch rules, as a relation between the state before, the state
/// after, the packet, and the effect handed back: a populated channel
/// list replaces the registry wholesale (entries stripped of their
/// user-count suffix), a list-less `ListChannels` is the request shape
/// and is ignored, a topic change overwrites the topic, a chat message is
/// appended under the currently active channel and no other, a join
/// announcement switches the active channel, and an error, a plain
/// status, or a wrong-direction packet changes nothing and only asks to
/// be logged.
pub open spec fn dispatch_post(a: ClientStateV, b: ClientStateV, p: PacketV, eff: DispatchEffect) -> bool {
    match p {
        PacketV::ListChannels { channels: Some(cs) } => b == (ClientStateV {
            channels: cs.map_values(|c: Seq<char>| strip_user_count(c)),
            ..a
        }) && eff is Quiet,
        PacketV::ListChannels { channels: None } => b == a && eff is Quiet,
        PacketV::ChangeTopic { topic } => b == (ClientStateV { topic: topic, ..a })
            && eff is Quiet,
        PacketV::Chat(m) => b.channels == a.channels && b.active_channel == a.active_channel
            && b.topic == a.topic && msgs_of(b.store, a.active_channel) == msgs_of(
            a.store,
            a.active_channel,
        ).push(m) && (forall|q: Seq<char>|
            q != a.active_channel ==> msgs_of(b.store, q) == msgs_of(a.store, q)) && eff
            is Quiet,
        PacketV::Error { error, clientshutdown } => b == a && (eff matches
            DispatchEffect::LogError { error: e, clientshutdown: cs } && e@ == error && cs
            == clientshutdown),
        PacketV::Status { status } => (match join_capture(status) {
            Some(c) => b == (ClientStateV { active_channel: c, ..a }) && eff is Quiet,
            None => b == a && (eff matches DispatchEffect::LogStatus { status: st } && st@
                == status),
        }),
        PacketV::JoinChannel { .. } => b == a && eff is LogAnomaly,
    }
}

impl ClientState {
    /// Applies one decoded inbound packet to the shared state; see
    /// [`dispatch_post`] for the rules followed.
    #[verifier::loop_isolation(false)]
    pub fn dispatch(&mut self, p: Packet) -> (eff: DispatchEffect)
        ensures
            dispatch_post(old(self)@, final(self)@, p@, eff),
    {
        match p {
            Packet::ListChannels { channels } => {
                match channels {
                    Some(cs) => {
                        let n = cs.len();
                        let mut out: Vec<String> = Vec::new();
                        let mut i: usize = 0;
                        while i < n
                            invariant
                                0 <= i <= n,
                                n == cs@.len(),
                                out@.len() == i,
                                forall|j: int|
                                    0 <= j < i ==> (#[trigger] out@[j])@ == strip_user_count(
                                        cs@[j]@,
                                    ),
                            decreases n - i,
                        {
                            out.push(get_channel_name(cs[i].clone()));
                            i = i + 1;
                        }
                        self.channels = out;
                        proof {
                            assert(self@.channels =~~= cs@.map_values(|c: String| c@).map_values(
                                |c: Seq<char>| strip_user_count(c),
                            ));
                        }
                        DispatchEffect::Quiet
                    },
                    None => DispatchEffect::Quiet,
                }
            },
            Packet::ChangeTopic { topic } => {
                self.topic = topic;
                DispatchEffect::Quiet
            },
            Packet::Chat(m) => {
                let key = self.active_channel.clone();
                self.store.append(key.as_str(), m);
                DispatchEffect::Quiet
            },
            Packet::Error { error, clientshutdown } => {
                DispatchEffect::LogError { error, clientshutdown }
            },
            Packet::Status { status } => {
                match match_join_status(status.as_str()) {
                    Some(c) => {
                        self.active_channel = c;
                        DispatchEffect::Quiet
                    },
                    None => DispatchEffect::LogStatus { status },
                }
            },
            Packet::JoinChannel { .. } => DispatchEffect::LogAnomaly,
        }
    }
}

// ------------------------------------------------------------------
// Read loop: what one receive outcome leads to.
// ------------------------------------------------------------------
/// What one call of the connection's receive primitive produced; the
/// surrounding process reads the socket and hands the outcome in.
pub enum RecvOutcome {
    /// One full line arrived.
    Line(Vec<u8>),
    /// A zero-byte read: the peer closed the stream cleanly.
    Eof,
    /// Any other transport failure.
    Failure,
}

/// Why the read loop stopped.
#[derive(Clone, Copy, Debug, PartialEq, Eq, Structural)]
pub enum StopReason {
    /// The clean close: reconnect without alarming anyone.
    ConnectionAborted,
    /// Another transport error: logged, then reconnect all the same.
    TransportError,
}

/// What the read loop does next.
pub enum ReadStep {
    /// The line decoded and was dispatched; keep reading.
    Continue(DispatchEffect),
    /// The line was malformed; it is skipped and reading goes on.
    SkippedLine(DecodeError),
    /// The loop is over; the supervisor takes it from here.
    Stopped(StopReason),
}

impl ClientState {
    /// One turn of the read loop: decode and dispatch a line, skip a
    /// malformed one, or stop on end-of-stream or failure. Only a
    /// successfully decoded packet ever touches the state.
    pub fn read_step(&mut self, outcome: RecvOutcome) -> (r: ReadStep)
        ensures
            (match outcome {
                RecvOutcome::Eof => r == ReadStep::Stopped(StopReason::ConnectionAborted)
                    && final(self)@ == old(self)@,
                RecvOutcome::Failure => r == ReadStep::Stopped(StopReason::TransportError)
                    && final(self)@ == old(self)@,
                RecvOutcome::Line(bytes) => (match decode_packet(bytes@) {
                    Ok(pv) => r matches ReadStep::Continue(eff) && dispatch_post(
                        old(self)@,
                        final(self)@,
                        pv,
                        eff,
                    ),
                    Err(e) => r == ReadStep::SkippedLine(e) && final(self)@ == old(self)@,
                }),
            }),
    {
        match outcome {
            RecvOutcome::Eof => ReadStep::Stopped(StopReason::ConnectionAborted),
            RecvOutcome::Failure => ReadStep::Stopped(StopReason::TransportError),
            RecvOutcome::Line(bytes) => {
                match Packet::from_bytes(bytes.as_slice()) {
                    Ok(p) => ReadStep::Continue(self.dispatch(p)),
                    Err(e) => ReadStep::SkippedLine(e),
                }
            },
        }
    }
}

// ------------------------------------------------------------------
// Outbound queue: bounded, first in, first out.
// ------------------------------------------------------------------
/// How many outbound packets may wait at once.
pub const OUTBOUND_CAPACITY: usize = 100;

/// The bounded queue the write loop drains; enqueue order is delivery
/// order.
pub struct OutboundQueue {
    items: Vec<Packet>,
}

impl View for OutboundQueue {
    type V = Seq<PacketV>;

    closed spec fn view(&self) -> Seq<PacketV> {
        self.items@.map_values(|p: Packet| p@)
    }
}

impl OutboundQueue {
    pub fn new() -> (r: OutboundQueue)
        ensures
            r@ == Seq::<PacketV>::empty(),
    {
        let r = OutboundQueue { items: Vec::new() };
        proof {
            assert(r@ =~= Seq::<PacketV>::empty());
        }
        r
    }

    pub fn len(&self) -> (r: usize)
        ensures
            r == self@.len(),
    {
        self.items.len()
    }

    /// Adds a packet at the back, unless the queue is full; a full queue
    /// refuses, so a caller must wait rather than drop the packet.
    pub fn try_enqueue(&mut self, p: Packet) -> (r: bool)
        ensures
            old(self)@.len() < OUTBOUND_CAPACITY ==> r && final(self)@ == old(self)@.push(p@),
            old(self)@.len() >= OUTBOUND_CAPACITY ==> !r && final(self)@ == old(self)@,
    {
        if self.items.len() < OUTBOUND_CAPACITY {
            self.items.push(p);
            proof {
                assert(self@ =~~= old(self)@.push(p@));
            }
            true
        } else {
            false
        }
    }

    /// Removes and returns the oldest packet, if any.
    pub fn dequeue(&mut self) -> (r: Option<Packet>)
        ensures
            (match r {
                Some(p) => old(self)@.len() > 0 && p@ == old(self)@[0] && final(self)@ == old(
                    self,
                )@.drop_first(),
                None => old(self)@.len() == 0 && final(self)@ == old(self)@,
            }),
    {
        if self.items.len() == 0 {
            None
        } else {
            let p = self.items.remove(0);
            proof {
                assert(self@ =~~= old(self)@.drop_first());
            }
            Some(p)
        }
    }
}

/// The bytes the write loop puts on the wire for a queue's contents:
/// each packet's encoding, in queue order.
pub open spec fn wire_lines(items: Seq<PacketV>) -> Seq<Seq<u8>>
    decreases items.len(),
{
    if items.len() == 0 {
        Seq::empty()
    } else {
        seq![encode_packet(items[0])] + wire_lines(items.drop_first())
    }
}

/// The write loop preserves order: the lines it produces are exactly the
/// enqueued packets' encodings, one per packet, in enqueue order.
pub proof fn lemma_wire_lines_in_order(items: Seq<PacketV>)
    ensures
        wire_lines(items).len() == items.len(),
        forall|i: int|
            0 <= i < items.len() ==> #[trigger] wire_lines(items)[i] == encode_packet(items[i]),
    decreases items.len(),
{
    if items.len() > 0 {
        lemma_wire_lines_in_order(items.drop_first());
    }
}

/// One turn of the write loop: encode and hand back the oldest packet's
/// line, or report the queue empty.
pub fn write_step(q: &mut OutboundQueue) -> (r: Option<Vec<u8>>)
    ensures
        (match r {
            Some(line) => old(q)@.len() > 0 && line@ == encode_packet(old(q)@[0]) && final(q)@
                == old(q)@.drop_first() && wire_lines(old(q)@) == seq![line@] + wire_lines(
                final(q)@,
            ),
            None => old(q)@.len() == 0 && final(q)@ == old(q)@,
        }),
{
    match q.dequeue() {
        Some(p) => Some(p.into_bytes()),
        None => None,
    }
}

// ------------------------------------------------------------------
// Reconnect supervisor: the lifecycle state machine.
// ------------------------------------------------------------------
/// Where the connection lifecycle stands. The supervisor is the only
/// writer; everyone else observes.
#[derive(Clone, Copy, Debug, PartialEq, Eq, Structural)]
pub enum ConnectionState {
    Disconnected,
    Connecting,
    Connected,
}

/// How long the supervisor sleeps between connection attempts.
pub const RETRY_DELAY_SECS: u64 = 5;

/// What the supervisor asks its caller to do next.
#[derive(Clone, Copy, Debug, PartialEq, Eq, Structural)]
pub enum SupervisorAction {
    /// Spawn the read and write loops on the fresh connection, publish a
    /// fresh outbound queue, and send the initial channel-list request.
    StartLoops,
    /// Sleep the fixed delay, then attempt to connect again.
    RetryAfterDelay,
    /// Cancel the write loop, then begin the next cycle.
    TearDown,
}

/// The supervisor: connection state plus the user-visible notification.
pub struct Supervisor {
    pub state: ConnectionState,
    pub notification: Option<String>,
}

/// Model of the supervisor.
pub struct SupervisorV {
    pub state: ConnectionState,
    pub notification: Option<Seq<char>>,
}

impl View for Supervisor {
    type V = SupervisorV;

    open spec fn view(&self) -> SupervisorV {
        SupervisorV {
            state: self.state,
            notification: match self.notification {
                Some(ref n) => Some(n@),
                None => None,
            },
        }
    }
}

/// The events the supervisor reacts to, one per suspension point of its
/// cycle.
#[derive(Clone, Copy, Debug, PartialEq, Eq, Structural)]
pub enum SupervisorEvent {
    /// A connection attempt is beginning.
    AttemptStarted,
    /// The attempt came back, successfully or not.
    ConnectFinished(bool),
    /// The read loop's completion signal fired.
    ReadLoopEnded,
}

/// What one connection attempt's outcome does to the supervisor: success
/// enters Connected and clears the notification; failure returns to
/// Disconnected, posts the notification, and schedules a retry.
pub open spec fn connect_step(s: SupervisorV, ok: bool) -> (SupervisorV, SupervisorAction) {
    if ok {
        (SupervisorV { state: ConnectionState::Connected, notification: None }, SupervisorAction::StartLoops)
    } else {
        (
            SupervisorV {
                state: ConnectionState::Disconnected,
                notification: Some("Error connecting to the server."@),
            },
            SupervisorAction::RetryAfterDelay,
        )
    }
}

/// The whole lifecycle machine, one event at a time; the action, if any,
/// is what the caller must perform before the next event.
pub open spec fn supervisor_step(s: SupervisorV, ev: SupervisorEvent) -> (
    SupervisorV,
    Option<SupervisorAction>,
) {
    match ev {
        SupervisorEvent::AttemptStarted => (
            SupervisorV { state: ConnectionState::Connecting, ..s },
            None,
        ),
        SupervisorEvent::ConnectFinished(ok) => {
            let (s2, a) = connect_step(s, ok);
            (s2, Some(a))
        },
        SupervisorEvent::ReadLoopEnded => (
            SupervisorV { state: ConnectionState::Disconnected, ..s },
            Some(SupervisorAction::TearDown),
        ),
    }
}

impl Supervisor {
    pub fn new() -> (r: Supervisor)
        ensures
            r@.state == ConnectionState::Disconnected,
            r@.notification is None,
    {
        Supervisor { state: ConnectionState::Disconnected, notification: None }
    }

    /// A cycle begins: the supervisor is attempting to connect.
    pub fn begin_attempt(&mut self)
        ensures
            final(self)@ == supervisor_step(old(self)@, SupervisorEvent::AttemptStarted).0,
            final(self)@.state == ConnectionState::Connecting,
            final(self)@.notification == old(self)@.notification,
    {
        self.state = ConnectionState::Connecting;
        proof {
            assert(self@ =~~= supervisor_step(old(self)@, SupervisorEvent::AttemptStarted).0);
        }
    }

    /// The connection attempt came back.
    pub fn on_connect_result(&mut self, ok: bool) -> (a: SupervisorAction)
        ensures
            (final(self)@, a) == connect_step(old(self)@, ok),
            (final(self)@, Some(a)) == supervisor_step(
                old(self)@,
                SupervisorEvent::ConnectFinished(ok),
            ),
    {
        if ok {
            self.state = ConnectionState::Connected;
            self.notification = None;
            SupervisorAction::StartLoops
        } else {
            self.state = ConnectionState::Disconnected;
            self.notification = Some(error_notification());
            SupervisorAction::RetryAfterDelay
        }
    }

    /// The read loop's completion signal fired: exactly one teardown of
    /// the write loop, then the next cycle.
    pub fn on_read_loop_ended(&mut self) -> (a: SupervisorAction)
        ensures
            (final(self)@, Some(a)) == supervisor_step(
                old(self)@,
                SupervisorEvent::ReadLoopEnded,
            ),
            final(self)@.state == ConnectionState::Disconnected,
            final(self)@.notification == old(self)@.notification,
            a == SupervisorAction::TearDown,
    {
        self.state = ConnectionState::Disconnected;
        proof {
            assert(SupervisorV {
                state: ConnectionState::Disconnected,
                ..old(self)@
            } =~~= self@);
        }
        SupervisorAction::TearDown
    }

    /// The notification text, or empty when none is posted.
    pub fn notification_text(&self) -> (r: String)
        ensures
            (match self@.notification {
                Some(n) => r@ == n,
                None => r@ == Seq::<char>::empty(),
            }),
    {
        match &self.notification {
            Some(n) => n.clone(),
            None => String::new(),
        }
    }
}

/// The user-visible text posted after a failed connection attempt.
fn error_notification() -> (r: String)
    ensures
        r@ == "Error connecting to the server."@,
{
    "Error connecting to the server.".to_owned()
}

/// The write loop is torn down exactly when the read loop's completion
/// event arrives — one completion, one teardown, so one reconnect cycle
/// follows it — and Connected is entered exactly on a successful attempt.
pub proof fn lemma_one_teardown_per_completion(s: SupervisorV, ev: SupervisorEvent)
    ensures
        supervisor_step(s, ev).1 == Some(SupervisorAction::TearDown) <==> ev
            is ReadLoopEnded,
        supervisor_step(s, ev).0.state == ConnectionState::Connected <==> ev
            == SupervisorEvent::ConnectFinished(true),
{
}

/// A failed attempt followed by a successful one: the failure posts the
/// notification and returns to Disconnected; the success clears it and is
/// the one and only step that enters Connected.
pub proof fn lemma_failure_then_success_clears_notification(s0: SupervisorV)
    ensures
        ({
            let (s1, a1) = connect_step(s0, false);
            let (s2, a2) = connect_step(s1, true);
            s1.state == ConnectionState::Disconnected && s1.notification is Some && a1
                == SupervisorAction::RetryAfterDelay && s2.state == ConnectionState::Connected
                && s2.notification is None && a2 == SupervisorAction::StartLoops
        }),
        forall|s: SupervisorV, ok: bool|
            (#[trigger] connect_step(s, ok)).0.state == ConnectionState::Connected <==> ok,
{
}

} // verus!
