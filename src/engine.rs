//! The session registry and the decisions of the polling and WebSocket
//! transports. The HTTP and WebSocket plumbing around them lives outside the
//! library: it hands these functions plain values and performs what they
//! return.

use vstd::prelude::*;

use crate::adapter::Sid;
use crate::packet::{
    packet_faithful,
    decode_packet, open_packet_json, packet_text, parse_packet, push_chars, OpenPacket, OpenView,
    Packet, PacketView, ParseError,
};
use crate::payload::{
    decode_payload, decode_spec, frame_v3, is_batch_len, payload, views, Decoded, ProtocolVersion,
};
use crate::session::{DisconnectReason, SendError, Session, TransportType};

verus! {

/// Engine settings.
pub struct EngineConfig {
    /// Milliseconds between two pings.
    pub ping_interval: u64,
    /// Milliseconds to wait for a pong.
    pub ping_timeout: u64,
    /// The largest payload, in bytes.
    pub max_payload: u64,
    /// How many packets a session's queue holds.
    pub max_buffer_size: usize,
}

impl EngineConfig {
    /// Pings every 25 s, a 20 s timeout, payloads of at most 1e6 characters
    /// and queues of 128 packets.
    pub fn new() -> (r: EngineConfig)
        ensures
            r.ping_interval == 25000,
            r.ping_timeout == 20000,
            r.max_payload == 1000000,
            r.max_buffer_size == 128,
    {
        EngineConfig {
            ping_interval: 25000,
            ping_timeout: 20000,
            max_payload: 1000000,
            max_buffer_size: 128,
        }
    }
}

/// Why a request to the engine failed.
pub enum EngineError {
    /// No open session has this id.
    UnknownSessionID,
    /// The session uses the other transport.
    TransportMismatch,
    /// A second poll arrived while one was pending; the session is closed.
    MultipleHttpPolling,
    /// A packet that this transport does not accept here.
    BadPacket(Packet),
    /// The input could not be read; the session is closed.
    PacketParsing(ParseError),
    /// A heartbeat signal found the previous one still pending.
    HeartbeatTimeout,
    /// The upgrade to WebSocket broke off.
    UpgradeError,
    /// A packet could not be queued.
    Send(SendError),
}

/// What a client sent for the application.
pub enum Inbound {
    Message(String),
    Binary(Vec<u8>),
}

/// The mathematical form of an inbound item.
pub enum InboundView {
    Message(Seq<char>),
    Binary(Seq<u8>),
}

impl View for Inbound {
    type V = InboundView;

    open spec fn view(&self) -> InboundView {
        match self {
            Inbound::Message(m) => InboundView::Message(m@),
            Inbound::Binary(b) => InboundView::Binary(b@),
        }
    }
}

/// The views of a sequence of inbound items.
pub open spec fn inbound_views(s: Seq<Inbound>) -> Seq<InboundView> {
    s.map_values(|i: Inbound| i@)
}

/// How reading the packets of one request ended.
pub enum PostEnd {
    /// Every packet was handled.
    Finished,
    /// The client asked to close.
    ClientClose,
    /// A packet that a client may not send here.
    Bad(PacketView),
    /// A heartbeat signal found the previous one still pending.
    Heartbeat,
}

/// Handle the client's packets `ps` in order, starting with a heartbeat
/// signal pending or not: what reaches the application, how it ended, how
/// many packets were read and whether a signal is pending afterwards.
pub open spec fn post_run(ps: Seq<PacketView>, pending: bool) -> (Seq<InboundView>, PostEnd, nat, bool)
    decreases ps.len(),
{
    if ps.len() == 0 {
        (seq![], PostEnd::Finished, 0, pending)
    } else {
        let rest = ps.drop_first();
        match ps[0] {
            PacketView::Close => (seq![], PostEnd::ClientClose, 1, pending),
            PacketView::Ping | PacketView::Pong => if pending {
                (seq![], PostEnd::Heartbeat, 1, pending)
            } else {
                let r = post_run(rest, true);
                (r.0, r.1, r.2 + 1, r.3)
            },
            PacketView::Message(m) => {
                let r = post_run(rest, pending);
                (seq![InboundView::Message(m)] + r.0, r.1, r.2 + 1, r.3)
            },
            PacketView::Binary(b) => {
                let r = post_run(rest, pending);
                (seq![InboundView::Binary(b)] + r.0, r.1, r.2 + 1, r.3)
            },
            PacketView::BinaryV3(b) => {
                let r = post_run(rest, pending);
                (seq![InboundView::Binary(b)] + r.0, r.1, r.2 + 1, r.3)
            },
            p => (seq![], PostEnd::Bad(p), 1, pending),
        }
    }
}

/// What a POST request yields: the items for the application, in order, and
/// the request's result.
pub struct PostOutcome {
    pub inbound: Vec<Inbound>,
    pub result: Result<(), EngineError>,
}

/// A WebSocket frame.
pub enum WsFrame {
    Text(Vec<char>),
    Binary(Vec<u8>),
    Close,
}

/// The mathematical form of a frame.
pub enum WsFrameView {
    Text(Seq<char>),
    Binary(Seq<u8>),
    Close,
}

impl View for WsFrame {
    type V = WsFrameView;

    open spec fn view(&self) -> WsFrameView {
        match self {
            WsFrame::Text(t) => WsFrameView::Text(t@),
            WsFrame::Binary(b) => WsFrameView::Binary(b@),
            WsFrame::Close => WsFrameView::Close,
        }
    }
}

/// The views of a sequence of frames.
pub open spec fn frame_views(s: Seq<WsFrame>) -> Seq<WsFrameView> {
    s.map_values(|f: WsFrame| f@)
}

/// The frames a WebSocket writer sends for queued packets `ps`: a close
/// packet becomes a close frame and ends the writer, a no-op is dropped,
/// binary data goes in binary frames and the rest in text frames. Also how
/// many packets it takes and whether it stopped.
pub open spec fn ws_frames(ps: Seq<PacketView>) -> (Seq<WsFrameView>, nat, bool)
    decreases ps.len(),
{
    if ps.len() == 0 {
        (seq![], 0, false)
    } else {
        let r = ws_frames(ps.drop_first());
        match ps[0] {
            PacketView::Close => (seq![WsFrameView::Close], 1, true),
            PacketView::Noop => (r.0, r.1 + 1, r.2),
            PacketView::Binary(b) => (seq![WsFrameView::Binary(b)] + r.0, r.1 + 1, r.2),
            PacketView::BinaryV3(b) => (seq![WsFrameView::Binary(b)] + r.0, r.1 + 1, r.2),
            p => (seq![WsFrameView::Text(packet_text(p))] + r.0, r.1 + 1, r.2),
        }
    }
}

/// What the WebSocket reader does after one incoming frame.
pub enum WsStep {
    /// Keep reading, and hand these items to the application.
    Continue(Vec<Inbound>),
    /// The connection is done; the session is closed.
    Stop,
}

/// Where an upgrade from polling to WebSocket stands.
#[derive(PartialEq, Eq, Structural, Debug, Clone, Copy)]
pub enum UpgradeState {
    /// Waiting for the client's `2probe`.
    AwaitProbe,
    /// Waiting for the client's `5`.
    AwaitUpgrade,
    /// Waiting for the pending poll to give the queue back.
    AwaitPollEnd,
}

/// The open packet that a session announces.
pub open spec fn open_view(token: Seq<char>, transport: TransportType, config: EngineConfig) -> OpenView {
    OpenView {
        sid: token,
        upgrades: if transport == TransportType::Polling {
            seq!["websocket"@]
        } else {
            seq![]
        },
        ping_interval: config.ping_interval,
        ping_timeout: config.ping_timeout,
        max_payload: config.max_payload,
    }
}

/// The session fields that a step leaves alone, apart from its queue, its
/// close reason and its heartbeat flag.
pub open spec fn same_frame(a: Session, b: Session) -> bool {
    &&& a.spec_sid() == b.spec_sid()
    &&& a.spec_protocol() == b.spec_protocol()
    &&& a.spec_transport() == b.spec_transport()
    &&& a.spec_capacity() == b.spec_capacity()
    &&& a.rx_held() == b.rx_held()
    &&& a.delivered() == b.delivered()
}

/// A session keeps its id, protocol and capacity.
pub open spec fn same_identity(a: Session, b: Session) -> bool {
    &&& a.spec_sid() == b.spec_sid()
    &&& a.spec_protocol() == b.spec_protocol()
    &&& a.spec_capacity() == b.spec_capacity()
}

/// The queue and close reason are left alone too.
pub open spec fn same_state(a: Session, b: Session) -> bool {
    &&& same_frame(a, b)
    &&& a.queued() == b.queued()
    &&& a.enqueued() == b.enqueued()
    &&& a.close_reason() == b.close_reason()
}

/// What a POST with body `body` does to the open polling session `before`,
/// and what it returns.
pub open spec fn post_effect(before: Session, after: Session, body: Seq<char>, max: nat, r: &PostOutcome) -> bool {
    let (ps, err) = decode_spec(body, before.spec_protocol(), max);
    let run = post_run(ps, before.spec_heartbeat_pending());
    &&& inbound_views(r.inbound@) == run.0
    &&& after.spec_heartbeat_pending() == run.3
    &&& same_frame(before, after)
    &&& match run.1 {
        PostEnd::ClientClose => if before.queued().len() < before.spec_capacity() {
            &&& after.queued() == before.queued().push(PacketView::Noop)
            &&& after.enqueued() == before.enqueued().push(PacketView::Noop)
            &&& after.close_reason() == Some(DisconnectReason::TransportClose)
            &&& r.result is Ok
        } else {
            &&& (r.result matches Err(EngineError::Send(SendError::BufferFull)))
            &&& after.queued() == before.queued()
            &&& after.enqueued() == before.enqueued()
            &&& after.close_reason() == before.close_reason()
        },
        PostEnd::Heartbeat => {
            &&& (r.result matches Err(EngineError::HeartbeatTimeout))
            &&& after.queued() == before.queued()
            &&& after.enqueued() == before.enqueued()
            &&& after.close_reason() == before.close_reason()
        },
        PostEnd::Bad(p) => {
            &&& (r.result matches Err(EngineError::BadPacket(q)) && q@ == p)
            &&& after.queued() == before.queued()
            &&& after.enqueued() == before.enqueued()
            &&& after.close_reason() == before.close_reason()
        },
        PostEnd::Finished => {
            &&& after.queued() == before.queued()
            &&& after.enqueued() == before.enqueued()
            &&& match err {
                Some(e) => {
                    &&& (r.result matches Err(EngineError::PacketParsing(e2)) && e2 == e)
                    &&& after.close_reason() == Some(DisconnectReason::PacketParsingError)
                },
                None => {
                    &&& r.result is Ok
                    &&& after.close_reason() == before.close_reason()
                },
            }
        },
    }
}

/// How a WebSocket connection starts.
pub enum WsStart {
    /// A new session: its id, and the open packet's text to send first.
    New(Sid, Vec<char>),
    /// An upgrade of a polling session has begun.
    Upgrading(UpgradeState),
}

/// The session registry: the session with id `i` stands at index `i`.
pub struct Engine {
    config: EngineConfig,
    sessions: Vec<Session>,
}

impl Engine {
    /// The settings.
    pub closed spec fn spec_config(&self) -> EngineConfig {
        self.config
    }

    /// The settings.
    pub fn config(&self) -> (r: &EngineConfig)
        ensures
            *r == self.spec_config(),
    {
        &self.config
    }

    /// The sessions, by id.
    pub closed spec fn sessions(&self) -> Seq<Session> {
        self.sessions@
    }

    pub open spec fn wf(&self) -> bool {
        &&& self.spec_config().max_buffer_size > 0
        &&& forall|i: int|
            0 <= i < self.sessions().len() ==> (#[trigger] self.sessions()[i]).wf()
                && self.sessions()[i].spec_sid() == i
    }

    /// Whether `sid` names a session that is still open.
    pub open spec fn is_live(&self, sid: Sid) -> bool {
        sid < self.sessions().len() && self.sessions()[sid as int].close_reason().is_none()
    }

    /// The other sessions are left as they were.
    pub open spec fn only_changed(&self, other: &Engine, sid: Sid) -> bool {
        &&& self.sessions().len() == other.sessions().len()
        &&& self.spec_config() == other.spec_config()
        &&& forall|i: int|
            0 <= i < self.sessions().len() && i != sid ==> #[trigger] self.sessions()[i]
                == other.sessions()[i]
    }

    /// An engine with no sessions.
    pub fn new(config: EngineConfig) -> (r: Engine)
        requires
            config.max_buffer_size > 0,
        ensures
            r.wf(),
            r.spec_config() == config,
            r.sessions().len() == 0,
    {
        Engine { config, sessions: Vec::new() }
    }

    /// The session `sid`, if it was ever created.
    pub fn session(&self, sid: Sid) -> (r: Option<&Session>)
        ensures
            r is Some <==> sid < self.sessions().len(),
            r matches Some(s) ==> *s == self.sessions()[sid as int],
    {
        if sid < self.sessions.len() as u64 {
            let i = self.index(sid);
            Some(&self.sessions[i])
        } else {
            None
        }
    }

    /// The index of session `sid`.
    fn index(&self, sid: Sid) -> (r: usize)
        requires
            sid < self.sessions().len(),
        ensures
            r == sid,
    {
        let n = self.sessions.len();
        assert(sid < n);
        sid as usize
    }

    /// Whether `sid` names an open session.
    pub fn live(&self, sid: Sid) -> (r: bool)
        ensures
            r == self.is_live(sid),
    {
        if sid >= self.sessions.len() as u64 {
            return false;
        }
        let i = self.index(sid);
        !self.sessions[i].is_closed()
    }

    /// Register a new open session and return its id.
    pub fn create_session(&mut self, protocol: ProtocolVersion, transport: TransportType) -> (r:
        Sid)
        requires
            old(self).wf(),
            old(self).sessions().len() < u64::MAX,
        ensures
            final(self).wf(),
            r == old(self).sessions().len(),
            final(self).spec_config() == old(self).spec_config(),
            final(self).sessions().len() == old(self).sessions().len() + 1,
            final(self).sessions().drop_last() == old(self).sessions(),
            final(self).is_live(r),
            final(self).sessions()[r as int].spec_protocol() == protocol,
            final(self).sessions()[r as int].spec_transport() == transport,
            final(self).sessions()[r as int].queued().len() == 0,
            final(self).sessions()[r as int].enqueued().len() == 0,
            !final(self).sessions()[r as int].rx_held(),
            !final(self).sessions()[r as int].spec_heartbeat_pending(),
            final(self).sessions()[r as int].spec_capacity() == old(self).spec_config().max_buffer_size,
    {
        let sid = self.sessions.len() as u64;
        let s = Session::new(sid, protocol, transport, self.config.max_buffer_size);
        self.sessions.push(s);
        assert(self.sessions@.drop_last() == old(self).sessions@);
        sid
    }

    /// Queue `p` on session `sid`.
    pub fn send(&mut self, sid: Sid, p: Packet) -> (r: Result<(), SendError>)
        requires
            old(self).wf(),
            sid < old(self).sessions().len(),
        ensures
            final(self).wf(),
            final(self).only_changed(old(self), sid),
            (r is Ok) == (old(self).is_live(sid) && old(self).sessions()[sid as int].queued().len()
                < old(self).sessions()[sid as int].spec_capacity()),
            !old(self).is_live(sid) ==> r == Err::<(), SendError>(SendError::Closed),
            r is Ok ==> final(self).sessions()[sid as int].queued() == old(self).sessions()[sid as int].queued().push(p@),
            r is Err ==> final(self).sessions() == old(self).sessions(),
            final(self).sessions()[sid as int].close_reason() == old(self).sessions()[sid as int].close_reason(),
            same_frame(old(self).sessions()[sid as int], final(self).sessions()[sid as int]),
    {
        let i = self.index(sid);
        self.sessions[i].send(p)
    }

    /// Close session `sid` for `reason`; returns whether this call closed it.
    pub fn close_session(&mut self, sid: Sid, reason: DisconnectReason) -> (r: bool)
        requires
            old(self).wf(),
            sid < old(self).sessions().len(),
        ensures
            final(self).wf(),
            final(self).only_changed(old(self), sid),
            r == old(self).is_live(sid),
            !final(self).is_live(sid),
            r ==> final(self).sessions()[sid as int].close_reason() == Some(reason),
            final(self).sessions()[sid as int].queued() == old(self).sessions()[sid as int].queued(),
            same_frame(old(self).sessions()[sid as int], final(self).sessions()[sid as int]),
    {
        let i = self.index(sid);
        self.sessions[i].close(reason)
    }

    /// The response body that opens a polling session: the open packet,
    /// framed with its length for V3 clients.
    pub fn open_body(&self, token: &String, protocol: ProtocolVersion, transport: TransportType) -> (r: Vec<char>)
        ensures
            r@ == match protocol {
                ProtocolVersion::V4 => packet_text(PacketView::Open(open_view(token@, transport, self.spec_config()))),
                ProtocolVersion::V3 => frame_v3(packet_text(PacketView::Open(open_view(token@, transport, self.spec_config())))),
            },
    {
        let mut upgrades: Vec<String> = Vec::new();
        if transport == TransportType::Polling {
            upgrades.push(String::from_str("websocket"));
        }
        let o = OpenPacket {
            sid: token.clone(),
            upgrades,
            ping_interval: self.config.ping_interval,
            ping_timeout: self.config.ping_timeout,
            max_payload: self.config.max_payload,
        };
        assert(o@ == open_view(token@, transport, self.config)) by {
            assert(o@.upgrades =~= open_view(token@, transport, self.config).upgrades);
        }
        let mut text: Vec<char> = Vec::new();
        text.push('0');
        let j = open_packet_json(&o);
        push_chars(&mut text, &j);
        assert(text@ == packet_text(PacketView::Open(o@)));
        match protocol {
            ProtocolVersion::V4 => text,
            ProtocolVersion::V3 => {
                let mut out: Vec<char> = Vec::new();
                crate::packet::push_decimal(&mut out, text.len() as u64);
                out.push(':');
                push_chars(&mut out, &text);
                assert(out@ == frame_v3(text@));
                out
            },
        }
    }

    /// Open a polling session for a client that announced `protocol`, under
    /// the public id `token`: its id, and the response body.
    pub fn open_polling(&mut self, token: &String, protocol: ProtocolVersion) -> (r: (Sid, Vec<char>))
        requires
            old(self).wf(),
            old(self).sessions().len() < u64::MAX,
        ensures
            final(self).wf(),
            r.0 == old(self).sessions().len(),
            final(self).spec_config() == old(self).spec_config(),
            final(self).sessions().drop_last() == old(self).sessions(),
            final(self).is_live(r.0),
            final(self).sessions()[r.0 as int].spec_transport() == TransportType::Polling,
            final(self).sessions()[r.0 as int].spec_protocol() == protocol,
            final(self).sessions()[r.0 as int].queued().len() == 0,
            final(self).sessions()[r.0 as int].enqueued().len() == 0,
            !final(self).sessions()[r.0 as int].rx_held(),
            !final(self).sessions()[r.0 as int].spec_heartbeat_pending(),
            final(self).sessions()[r.0 as int].spec_capacity() == old(self).spec_config().max_buffer_size,
            r.1@ == match protocol {
                ProtocolVersion::V4 => packet_text(PacketView::Open(open_view(token@, TransportType::Polling, old(self).spec_config()))),
                ProtocolVersion::V3 => frame_v3(packet_text(PacketView::Open(open_view(token@, TransportType::Polling, old(self).spec_config())))),
            },
    {
        let sid = self.create_session(protocol, TransportType::Polling);
        let body = self.open_body(token, protocol, TransportType::Polling);
        (sid, body)
    }

    /// Admit a poll on session `sid`: it must be open and on polling, and no
    /// other poll may hold its queue. A second concurrent poll is refused and
    /// closes the session; the first keeps the queue, and a close packet is
    /// queued for it so that it returns. On success the poll holds the queue.
    pub fn poll_begin(&mut self, sid: Sid) -> (r: Result<(), EngineError>)
        requires
            old(self).wf(),
        ensures
            final(self).wf(),
            sid < old(self).sessions().len() ==> final(self).only_changed(old(self), sid),
            !old(self).is_live(sid) ==> (r matches Err(EngineError::UnknownSessionID)) && final(self).sessions() == old(self).sessions(),
            old(self).is_live(sid) && old(self).sessions()[sid as int].spec_transport() != TransportType::Polling ==> (r matches Err(EngineError::TransportMismatch)) && final(self).sessions() == old(self).sessions(),
            old(self).is_live(sid) && old(self).sessions()[sid as int].spec_transport() == TransportType::Polling && old(self).sessions()[sid as int].rx_held() ==> (r matches Err(EngineError::MultipleHttpPolling))
                && final(self).sessions()[sid as int].close_reason() == Some(DisconnectReason::MultipleHttpPollingError)
                && final(self).sessions()[sid as int].rx_held()
                && final(self).sessions()[sid as int].queued() == if old(self).sessions()[sid as int].queued().len() < old(self).sessions()[sid as int].spec_capacity() {
                    old(self).sessions()[sid as int].queued().push(PacketView::Close)
                } else {
                    old(self).sessions()[sid as int].queued()
                }
                && same_identity(old(self).sessions()[sid as int], final(self).sessions()[sid as int])
                && final(self).sessions()[sid as int].spec_transport() == old(self).sessions()[sid as int].spec_transport(),
            r is Ok <==> old(self).is_live(sid) && old(self).sessions()[sid as int].spec_transport() == TransportType::Polling && !old(self).sessions()[sid as int].rx_held(),
            r is Ok ==> final(self).sessions()[sid as int].rx_held() && final(self).sessions()[sid as int].queued() == old(self).sessions()[sid as int].queued()
                && final(self).sessions()[sid as int].close_reason() == old(self).sessions()[sid as int].close_reason()
                && final(self).sessions()[sid as int].spec_transport() == old(self).sessions()[sid as int].spec_transport()
                && final(self).sessions()[sid as int].spec_protocol() == old(self).sessions()[sid as int].spec_protocol(),
    {
        if !self.live(sid) {
            return Err(EngineError::UnknownSessionID);
        }
        let i = self.index(sid);
        if !self.sessions[i].is_http() {
            return Err(EngineError::TransportMismatch);
        }
        if self.sessions[i].rx_held_now() {
            let _woken = self.sessions[i].send(Packet::Close);
            self.sessions[i].close(DisconnectReason::MultipleHttpPollingError);
            return Err(EngineError::MultipleHttpPolling);
        }
        let _held = self.sessions[i].try_lock_rx();
        Ok(())
    }

    /// The next batch of an admitted poll: `None` while nothing is queued.
    pub fn poll_take(&mut self, sid: Sid) -> (r: Option<Vec<char>>)
        requires
            old(self).wf(),
            sid < old(self).sessions().len(),
            old(self).sessions()[sid as int].rx_held(),
        ensures
            final(self).wf(),
            final(self).only_changed(old(self), sid),
            r is None <==> old(self).sessions()[sid as int].queued().len() == 0,
            r matches Some(body) ==> exists|k: nat|
                is_batch_len(old(self).sessions()[sid as int].queued(), old(self).sessions()[sid as int].spec_protocol(), old(self).spec_config().max_payload as nat, k)
                    && body@ == payload(old(self).sessions()[sid as int].queued().take(k as int), old(self).sessions()[sid as int].spec_protocol())
                    && final(self).sessions()[sid as int].queued() == old(self).sessions()[sid as int].queued().skip(k as int)
                    && (forall|i: int| 0 <= i < k ==> packet_faithful(#[trigger] old(self).sessions()[sid as int].queued()[i])),
            same_identity(old(self).sessions()[sid as int], final(self).sessions()[sid as int]),
            final(self).sessions()[sid as int].spec_transport() == old(self).sessions()[sid as int].spec_transport(),
            final(self).sessions()[sid as int].close_reason() == old(self).sessions()[sid as int].close_reason(),
            final(self).sessions()[sid as int].rx_held(),
    {
        let max = self.config.max_payload;
        let i = self.index(sid);
        self.sessions[i].take_batch(max)
    }

    /// An admitted poll is over: it gives the queue back.
    pub fn poll_end(&mut self, sid: Sid)
        requires
            old(self).wf(),
            sid < old(self).sessions().len(),
        ensures
            final(self).wf(),
            final(self).only_changed(old(self), sid),
            !final(self).sessions()[sid as int].rx_held(),
            final(self).sessions()[sid as int].queued() == old(self).sessions()[sid as int].queued(),
            same_identity(old(self).sessions()[sid as int], final(self).sessions()[sid as int]),
            final(self).sessions()[sid as int].spec_transport() == old(self).sessions()[sid as int].spec_transport(),
            final(self).sessions()[sid as int].close_reason() == old(self).sessions()[sid as int].close_reason(),
    {
        let i = self.index(sid);
        self.sessions[i].unlock_rx();
    }
    /// A heartbeat period of session `sid` has passed: queue a ping.
    pub fn heartbeat_ping(&mut self, sid: Sid) -> (r: Result<(), SendError>)
        requires
            old(self).wf(),
            sid < old(self).sessions().len(),
        ensures
            final(self).wf(),
            final(self).only_changed(old(self), sid),
            (r is Ok) == (old(self).is_live(sid) && old(self).sessions()[sid as int].queued().len()
                < old(self).sessions()[sid as int].spec_capacity()),
            r is Ok ==> final(self).sessions()[sid as int].queued() == old(self).sessions()[sid as int].queued().push(PacketView::Ping),
            r is Err ==> final(self).sessions() == old(self).sessions(),
            same_frame(old(self).sessions()[sid as int], final(self).sessions()[sid as int]),
            final(self).sessions()[sid as int].close_reason() == old(self).sessions()[sid as int].close_reason(),
    {
        self.send(sid, Packet::Ping)
    }

    /// The heartbeat timeout of session `sid` has run out: the session stays
    /// alive only if a signal came meanwhile, and is closed for
    /// `HeartbeatTimeout` otherwise. Returns whether it is still alive.
    pub fn heartbeat_expired(&mut self, sid: Sid) -> (r: bool)
        requires
            old(self).wf(),
            sid < old(self).sessions().len(),
        ensures
            final(self).wf(),
            final(self).only_changed(old(self), sid),
            r == (old(self).sessions()[sid as int].spec_heartbeat_pending() && old(self).is_live(sid)),
            r == final(self).is_live(sid),
            !final(self).sessions()[sid as int].spec_heartbeat_pending(),
            final(self).sessions()[sid as int].queued() == old(self).sessions()[sid as int].queued(),
            same_frame(old(self).sessions()[sid as int], final(self).sessions()[sid as int]),
    {
        let i = self.index(sid);
        self.sessions[i].heartbeat_expired()
    }

    /// Handle a POST on session `sid` whose body is `body`: read its packets
    /// and act on each in turn. Messages and binary data go to the
    /// application; a ping or pong is a heartbeat signal; a close packet wakes
    /// a pending poll with a no-op and closes the session; any other packet
    /// fails the request and keeps the session. A body that cannot be read
    /// closes the session.
    pub fn post(&mut self, sid: Sid, body: &Vec<char>) -> (r: PostOutcome)
        requires
            old(self).wf(),
        ensures
            final(self).wf(),
            sid < old(self).sessions().len() ==> final(self).only_changed(old(self), sid),
            !old(self).is_live(sid) ==> (r.result matches Err(EngineError::UnknownSessionID))
                && r.inbound@.len() == 0 && final(self).sessions() == old(self).sessions(),
            old(self).is_live(sid) && old(self).sessions()[sid as int].spec_transport()
                != TransportType::Polling ==> (r.result matches Err(EngineError::TransportMismatch))
                && r.inbound@.len() == 0 && final(self).sessions() == old(self).sessions(),
            old(self).is_live(sid) && old(self).sessions()[sid as int].spec_transport()
                == TransportType::Polling ==> post_effect(
                old(self).sessions()[sid as int],
                final(self).sessions()[sid as int],
                body@,
                old(self).spec_config().max_payload as nat,
                &r,
            ),
    {
        if !self.live(sid) {
            return PostOutcome { inbound: Vec::new(), result: Err(EngineError::UnknownSessionID) };
        }
        let i = self.index(sid);
        if !self.sessions[i].is_http() {
            return PostOutcome { inbound: Vec::new(), result: Err(EngineError::TransportMismatch) };
        }
        let ghost before = self.sessions()[sid as int];
        let protocol = self.sessions[i].protocol();
        let decoded = decode_payload(body, protocol, self.config.max_payload);
        let Decoded { packets, error } = decoded;
        let mut packets = packets;
        let ghost ps = views(packets@);
        let ghost dec = decode_spec(body@, before.spec_protocol(), old(self).spec_config().max_payload as nat);
        assert(dec == (ps, error));
        let ghost run = post_run(ps, before.spec_heartbeat_pending());
        let n = packets.len();
        let mut inbound: Vec<Inbound> = Vec::new();
        let mut k: usize = 0;
        assert(ps.skip(0) == ps);
        assert(inbound_views(inbound@) + post_run(ps, before.spec_heartbeat_pending()).0 == run.0);
        while k < n
            invariant
                self.wf(),
                self.only_changed(old(self), sid),
                i == sid,
                sid < self.sessions().len(),
                n == ps.len(),
                k <= n,
                views(packets@) == ps.skip(k as int),
                same_state(before, self.sessions()[sid as int]),
                before == old(self).sessions()[sid as int],
                before.close_reason().is_none(),
                before.spec_transport() == TransportType::Polling,
                dec == decode_spec(body@, before.spec_protocol(), old(self).spec_config().max_payload as nat),
                dec == (ps, error),
                run == post_run(ps, before.spec_heartbeat_pending()),
                run.0 == inbound_views(inbound@) + post_run(ps.skip(k as int), self.sessions()[sid as int].spec_heartbeat_pending()).0,
                run.1 == post_run(ps.skip(k as int), self.sessions()[sid as int].spec_heartbeat_pending()).1,
                run.3 == post_run(ps.skip(k as int), self.sessions()[sid as int].spec_heartbeat_pending()).3,
            decreases n - k,
        {
            let ghost rest = ps.skip(k as int);
            let ghost pend = self.sessions()[sid as int].spec_heartbeat_pending();
            let ghost before_inb = inbound_views(inbound@);
            assert(rest.drop_first() == ps.skip(k + 1));
            let p = packets.remove(0);
            assert(p@ == rest[0]);
            assert(views(packets@) == ps.skip(k + 1));
            match p {
                Packet::Close => {
                    let sent = self.sessions[i].send(Packet::Noop);
                    match sent {
                        Ok(()) => {
                            self.sessions[i].close(DisconnectReason::TransportClose);
                            assert(inbound_views(inbound@) + Seq::<InboundView>::empty() == inbound_views(inbound@));
                            return PostOutcome { inbound, result: Ok(()) };
                        },
                        Err(e) => {
                            assert(inbound_views(inbound@) + Seq::<InboundView>::empty() == inbound_views(inbound@));
                            return PostOutcome { inbound, result: Err(EngineError::Send(e)) };
                        },
                    }
                },
                Packet::Ping | Packet::Pong => {
                    if !self.sessions[i].heartbeat_signal() {
                        assert(inbound_views(inbound@) + Seq::<InboundView>::empty() == inbound_views(inbound@));
                        return PostOutcome { inbound, result: Err(EngineError::HeartbeatTimeout) };
                    }
                },
                Packet::Message(m) => {
                    let ghost mv = m@;
                    inbound.push(Inbound::Message(m));
                    assert(inbound_views(inbound@) == before_inb.push(InboundView::Message(mv)));
                    assert(before_inb + (seq![InboundView::Message(mv)] + post_run(ps.skip(k + 1), pend).0) =~= inbound_views(inbound@) + post_run(ps.skip(k + 1), pend).0);
                },
                Packet::Binary(b) | Packet::BinaryV3(b) => {
                    let ghost bv = b@;
                    inbound.push(Inbound::Binary(b));
                    assert(inbound_views(inbound@) == before_inb.push(InboundView::Binary(bv)));
                    assert(before_inb + (seq![InboundView::Binary(bv)] + post_run(ps.skip(k + 1), pend).0) =~= inbound_views(inbound@) + post_run(ps.skip(k + 1), pend).0);
                },
                other => {
                    assert(inbound_views(inbound@) + Seq::<InboundView>::empty() == inbound_views(inbound@));
                    return PostOutcome { inbound, result: Err(EngineError::BadPacket(other)) };
                },
            }
            k = k + 1;
        }
        assert(ps.skip(n as int) == Seq::<PacketView>::empty());
        assert(inbound_views(inbound@) + Seq::<InboundView>::empty() == inbound_views(inbound@));
        match error {
            Some(e) => {
                self.sessions[i].close(DisconnectReason::PacketParsingError);
                PostOutcome { inbound, result: Err(EngineError::PacketParsing(e)) }
            },
            None => PostOutcome { inbound, result: Ok(()) },
        }
    }
    /// Start a WebSocket connection. Without `sid` a new session is made and
    /// its open packet is to be sent first. With `sid` the polling session is
    /// to be upgraded: V4 clients get a no-op on their pending poll now.
    pub fn ws_connect(&mut self, token: &String, protocol: ProtocolVersion, sid: Option<Sid>) -> (r: Result<WsStart, EngineError>)
        requires
            old(self).wf(),
            old(self).sessions().len() < u64::MAX,
        ensures
            final(self).wf(),
            match sid {
                None => (r matches Ok(WsStart::New(s, text)) && s == old(self).sessions().len()
                    && text@ == packet_text(PacketView::Open(open_view(token@, TransportType::Websocket, old(self).spec_config())))
                    && final(self).is_live(s)
                    && final(self).sessions()[s as int].spec_transport() == TransportType::Websocket
                    && final(self).sessions()[s as int].spec_protocol() == protocol
                    && final(self).sessions()[s as int].queued().len() == 0
                    && !final(self).sessions()[s as int].rx_held()
                    && !final(self).sessions()[s as int].spec_heartbeat_pending()
                    && final(self).spec_config() == old(self).spec_config()
                    && final(self).sessions().drop_last() == old(self).sessions()),
                Some(s) => if !old(self).is_live(s) {
                    (r matches Err(EngineError::UnknownSessionID)) && final(self).sessions() == old(self).sessions()
                } else if old(self).sessions()[s as int].spec_transport() == TransportType::Websocket {
                    (r matches Err(EngineError::UpgradeError)) && final(self).sessions() == old(self).sessions()
                } else {
                    &&& final(self).only_changed(old(self), s)
                    &&& same_frame(old(self).sessions()[s as int], final(self).sessions()[s as int])
                    &&& final(self).sessions()[s as int].close_reason() == old(self).sessions()[s as int].close_reason()
                    &&& if protocol == ProtocolVersion::V4 {
                        if old(self).sessions()[s as int].queued().len() < old(self).sessions()[s as int].spec_capacity() {
                            (r matches Ok(WsStart::Upgrading(UpgradeState::AwaitProbe)))
                            && final(self).sessions()[s as int].queued() == old(self).sessions()[s as int].queued().push(PacketView::Noop)
                        } else {
                            (r matches Err(EngineError::Send(SendError::BufferFull)))
                            && final(self).sessions()[s as int] == old(self).sessions()[s as int]
                        }
                    } else {
                        (r matches Ok(WsStart::Upgrading(UpgradeState::AwaitProbe)))
                        && final(self).sessions()[s as int] == old(self).sessions()[s as int]
                    }
                },
            },
    {
        match sid {
            None => {
                let s = self.create_session(protocol, TransportType::Websocket);
                let text = self.open_body(token, ProtocolVersion::V4, TransportType::Websocket);
                Ok(WsStart::New(s, text))
            },
            Some(s) => {
                if !self.live(s) {
                    return Err(EngineError::UnknownSessionID);
                }
                let i = self.index(s);
                if self.sessions[i].is_ws() {
                    return Err(EngineError::UpgradeError);
                }
                if protocol == ProtocolVersion::V4 {
                    match self.sessions[i].send(Packet::Noop) {
                        Ok(()) => {},
                        Err(e) => {
                            return Err(EngineError::Send(e));
                        },
                    }
                }
                Ok(WsStart::Upgrading(UpgradeState::AwaitProbe))
            },
        }
    }

    /// One step of the upgrade of session `sid` from polling, on a frame from
    /// its WebSocket: the next state, and the text to answer with. After the
    /// client's `2probe` the answer is `3probe`, and V3 clients get a no-op on
    /// their pending poll; the client's `5` ends the exchange. Any other frame
    /// ends the upgrade with `UpgradeError`.
    pub fn upgrade_step(&mut self, sid: Sid, protocol: ProtocolVersion, state: UpgradeState, frame: WsFrame) -> (r: Result<(UpgradeState, Option<Vec<char>>), EngineError>)
        requires
            old(self).wf(),
            sid < old(self).sessions().len(),
        ensures
            final(self).wf(),
            final(self).only_changed(old(self), sid),
            same_frame(old(self).sessions()[sid as int], final(self).sessions()[sid as int]),
            final(self).sessions()[sid as int].close_reason() == old(self).sessions()[sid as int].close_reason(),
            match (state, frame@) {
                (UpgradeState::AwaitProbe, WsFrameView::Text(t)) => match parse_packet(t) {
                    Ok(PacketView::PingUpgrade) => if protocol == ProtocolVersion::V4 || old(self).sessions()[sid as int].queued().len() < old(self).sessions()[sid as int].spec_capacity() && old(self).is_live(sid) {
                        (r matches Ok((UpgradeState::AwaitUpgrade, Some(reply))) && reply@ == packet_text(PacketView::PongUpgrade))
                        && final(self).sessions()[sid as int].queued() == if protocol == ProtocolVersion::V3 {
                            old(self).sessions()[sid as int].queued().push(PacketView::Noop)
                        } else {
                            old(self).sessions()[sid as int].queued()
                        }
                    } else {
                        r matches Err(EngineError::Send(_))
                    },
                    _ => r matches Err(EngineError::UpgradeError),
                },
                (UpgradeState::AwaitUpgrade, WsFrameView::Text(t)) => match parse_packet(t) {
                    Ok(PacketView::Upgrade) => r matches Ok((UpgradeState::AwaitPollEnd, None)),
                    _ => r matches Err(EngineError::UpgradeError),
                },
                _ => r matches Err(EngineError::UpgradeError),
            },
            !(r matches Ok((UpgradeState::AwaitUpgrade, _)) && protocol == ProtocolVersion::V3) ==> final(self).sessions()[sid as int] == old(self).sessions()[sid as int],
    {
        let i = self.index(sid);
        match (state, frame) {
            (UpgradeState::AwaitProbe, WsFrame::Text(t)) => match decode_packet(&t) {
                Ok(Packet::PingUpgrade) => {
                    if protocol == ProtocolVersion::V3 {
                        match self.sessions[i].send(Packet::Noop) {
                            Ok(()) => {},
                            Err(e) => {
                                return Err(EngineError::Send(e));
                            },
                        }
                    }
                    let mut reply: Vec<char> = Vec::new();
                    crate::packet::push_packet_text(&mut reply, &Packet::PongUpgrade);
                    Ok((UpgradeState::AwaitUpgrade, Some(reply)))
                },
                _ => Err(EngineError::UpgradeError),
            },
            (UpgradeState::AwaitUpgrade, WsFrame::Text(t)) => match decode_packet(&t) {
                Ok(Packet::Upgrade) => Ok((UpgradeState::AwaitPollEnd, None)),
                _ => Err(EngineError::UpgradeError),
            },
            _ => Err(EngineError::UpgradeError),
        }
    }

    /// Finish the upgrade of session `sid`: once no poll holds its queue, it
    /// switches to WebSocket. Returns whether it did; if not, the caller waits
    /// for the pending poll to end and tries again.
    pub fn upgrade_finish(&mut self, sid: Sid) -> (r: bool)
        requires
            old(self).wf(),
            sid < old(self).sessions().len(),
        ensures
            final(self).wf(),
            final(self).only_changed(old(self), sid),
            r == !old(self).sessions()[sid as int].rx_held(),
            r ==> final(self).sessions()[sid as int].spec_transport() == TransportType::Websocket,
            !r ==> final(self).sessions() == old(self).sessions(),
            final(self).sessions()[sid as int].queued() == old(self).sessions()[sid as int].queued(),
            final(self).sessions()[sid as int].close_reason() == old(self).sessions()[sid as int].close_reason(),
            same_identity(old(self).sessions()[sid as int], final(self).sessions()[sid as int]),
            r ==> !final(self).sessions()[sid as int].rx_held(),
    {
        let i = self.index(sid);
        if self.sessions[i].rx_held_now() {
            return false;
        }
        self.sessions[i].upgrade_to_websocket();
        true
    }

    /// Handle one frame that the WebSocket of session `sid` received. Text
    /// frames carry packets: a close packet ends the session, a ping or pong
    /// is a heartbeat signal, a message goes to the application; anything
    /// else, or text that cannot be read, closes the session with an error.
    /// Binary frames go to the application; a close frame ends the session.
    pub fn ws_read(&mut self, sid: Sid, frame: WsFrame) -> (r: Result<WsStep, EngineError>)
        requires
            old(self).wf(),
            sid < old(self).sessions().len(),
        ensures
            final(self).wf(),
            final(self).only_changed(old(self), sid),
            same_frame(old(self).sessions()[sid as int], final(self).sessions()[sid as int]),
            final(self).sessions()[sid as int].queued() == old(self).sessions()[sid as int].queued(),
            ({
                let before = old(self).sessions()[sid as int];
                let after = final(self).sessions()[sid as int];
                let closed_for = |reason: DisconnectReason| after.close_reason() == if before.close_reason().is_none() { Some(reason) } else { before.close_reason() };
                match frame@ {
                    WsFrameView::Text(t) => match parse_packet(t) {
                        Ok(PacketView::Close) => (r matches Ok(WsStep::Stop)) && closed_for(DisconnectReason::TransportClose),
                        Ok(PacketView::Ping) | Ok(PacketView::Pong) => if before.spec_heartbeat_pending() {
                            (r matches Err(EngineError::HeartbeatTimeout)) && closed_for(DisconnectReason::HeartbeatTimeout)
                        } else {
                            (r matches Ok(WsStep::Continue(v)) && v@.len() == 0) && after.spec_heartbeat_pending() && after.close_reason() == before.close_reason()
                        },
                        Ok(PacketView::Message(m)) => (r matches Ok(WsStep::Continue(v)) && inbound_views(v@) == seq![InboundView::Message(m)]) && after == before,
                        Ok(p) => (r matches Err(EngineError::BadPacket(q)) && q@ == p) && closed_for(DisconnectReason::PacketParsingError),
                        Err(e) => (r matches Err(EngineError::PacketParsing(e2)) && e2 == e) && closed_for(DisconnectReason::PacketParsingError),
                    },
                    WsFrameView::Binary(b) => (r matches Ok(WsStep::Continue(v)) && inbound_views(v@) == seq![InboundView::Binary(b)]) && after == before,
                    WsFrameView::Close => (r matches Ok(WsStep::Stop)) && closed_for(DisconnectReason::TransportClose),
                }
            }),
    {
        let i = self.index(sid);
        match frame {
            WsFrame::Text(t) => match decode_packet(&t) {
                Ok(Packet::Close) => {
                    self.sessions[i].close(DisconnectReason::TransportClose);
                    Ok(WsStep::Stop)
                },
                Ok(Packet::Ping) | Ok(Packet::Pong) => {
                    if self.sessions[i].heartbeat_signal() {
                        Ok(WsStep::Continue(Vec::new()))
                    } else {
                        self.sessions[i].close(DisconnectReason::HeartbeatTimeout);
                        Err(EngineError::HeartbeatTimeout)
                    }
                },
                Ok(Packet::Message(m)) => {
                    let ghost mv = m@;
                    let v = vec![Inbound::Message(m)];
                    assert(inbound_views(v@) =~= seq![InboundView::Message(mv)]);
                    Ok(WsStep::Continue(v))
                },
                Ok(p) => {
                    self.sessions[i].close(DisconnectReason::PacketParsingError);
                    Err(EngineError::BadPacket(p))
                },
                Err(e) => {
                    self.sessions[i].close(DisconnectReason::PacketParsingError);
                    Err(EngineError::PacketParsing(e))
                },
            },
            WsFrame::Binary(b) => {
                let ghost bv = b@;
                let v = vec![Inbound::Binary(b)];
                assert(inbound_views(v@) =~= seq![InboundView::Binary(bv)]);
                Ok(WsStep::Continue(v))
            },
            WsFrame::Close => {
                self.sessions[i].close(DisconnectReason::TransportClose);
                Ok(WsStep::Stop)
            },
        }
    }

    /// Drain what session `sid` has queued into WebSocket frames, to be sent
    /// and then flushed once. Returns the frames and whether the writer is to
    /// stop: a close packet was met, after which the session takes no more
    /// packets (it ends for `ServerDisconnect` unless it had ended already).
    /// Only the writer of a WebSocket session reads its queue: no poll may
    /// hold it.
    pub fn ws_drain(&mut self, sid: Sid) -> (r: (Vec<WsFrame>, bool))
        requires
            old(self).wf(),
            sid < old(self).sessions().len(),
            old(self).sessions()[sid as int].spec_transport() == TransportType::Websocket,
            !old(self).sessions()[sid as int].rx_held(),
        ensures
            final(self).wf(),
            final(self).only_changed(old(self), sid),
            ({
                let w = ws_frames(old(self).sessions()[sid as int].queued());
                &&& frame_views(r.0@) == w.0
                &&& r.1 == w.2
                &&& final(self).sessions()[sid as int].queued() == old(self).sessions()[sid as int].queued().skip(w.1 as int)
            }),
            final(self).sessions()[sid as int].close_reason() == if r.1 && old(self).is_live(sid) {
                Some(DisconnectReason::ServerDisconnect)
            } else {
                old(self).sessions()[sid as int].close_reason()
            },
            r.1 ==> !final(self).is_live(sid),
            final(self).sessions()[sid as int].spec_transport() == old(self).sessions()[sid as int].spec_transport(),
            same_identity(old(self).sessions()[sid as int], final(self).sessions()[sid as int]),
            !final(self).sessions()[sid as int].rx_held(),
    {
        let i = self.index(sid);
        let ghost q0 = self.sessions()[sid as int].queued();
        let ghost w = ws_frames(q0);
        assert(self.sessions()[sid as int].wf());
        let mut out: Vec<WsFrame> = Vec::new();
        let mut k: usize = 0;
        assert(q0.skip(0) == q0);
        assert(frame_views(out@) + w.0 == w.0);
        loop
            invariant
                self.wf(),
                self.only_changed(old(self), sid),
                i == sid,
                sid < self.sessions().len(),
                k <= q0.len(),
                q0.len() <= usize::MAX,
                q0 == old(self).sessions()[sid as int].queued(),
                w == ws_frames(q0),
                self.sessions()[sid as int].queued() == q0.skip(k as int),
                w.0 == frame_views(out@) + ws_frames(q0.skip(k as int)).0,
                w.1 == k + ws_frames(q0.skip(k as int)).1,
                w.2 == ws_frames(q0.skip(k as int)).2,
                self.sessions()[sid as int].close_reason() == old(self).sessions()[sid as int].close_reason(),
                self.sessions()[sid as int].spec_transport() == old(self).sessions()[sid as int].spec_transport(),
                same_identity(old(self).sessions()[sid as int], self.sessions()[sid as int]),
                !self.sessions()[sid as int].rx_held(),
            decreases q0.len() - k,
        {
            let ghost rest = q0.skip(k as int);
            let ghost before_out = frame_views(out@);
            match self.sessions[i].take_one() {
                None => {
                    assert(rest.len() == 0);
                    assert(frame_views(out@) + Seq::<WsFrameView>::empty() == frame_views(out@));
                    return (out, false);
                },
                Some(p) => {
                    assert(k < q0.len());
                    assert(q0.len() <= usize::MAX);
                    assert(rest.drop_first() == q0.skip(k + 1));
                    let ghost pv = p@;
                    let ghost tail = ws_frames(q0.skip(k + 1));
                    match p {
                        Packet::Close => {
                            out.push(WsFrame::Close);
                            assert(frame_views(out@) == before_out.push(WsFrameView::Close));
                            assert(before_out + seq![WsFrameView::Close] =~= frame_views(out@));
                            assert(self.sessions()[sid as int].queued() == q0.skip(k + 1));
                            self.sessions[i].close(DisconnectReason::ServerDisconnect);
                            return (out, true);
                        },
                        Packet::Noop => {},
                        Packet::Binary(b) | Packet::BinaryV3(b) => {
                            let ghost bv = b@;
                            out.push(WsFrame::Binary(b));
                            assert(frame_views(out@) == before_out.push(WsFrameView::Binary(bv)));
                            assert(before_out + (seq![WsFrameView::Binary(bv)] + tail.0) =~= frame_views(out@) + tail.0);
                        },
                        other => {
                            let mut t: Vec<char> = Vec::new();
                            crate::packet::push_packet_text(&mut t, &other);
                            out.push(WsFrame::Text(t));
                            assert(frame_views(out@) == before_out.push(WsFrameView::Text(packet_text(pv))));
                            assert(before_out + (seq![WsFrameView::Text(packet_text(pv))] + tail.0) =~= frame_views(out@) + tail.0);
                        },
                    }
                },
            }
            k = k + 1;
        }
    }
}

} // verus!