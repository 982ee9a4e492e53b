//! One client session: its outbound queue, the lock over that queue's
//! reader, its transport and its lifecycle.

use std::collections::VecDeque;
use vstd::prelude::*;

use crate::adapter::Sid;
use crate::packet::{packet_faithful, Packet, PacketView};
use crate::payload::{encode_batch, is_batch_len, payload, views, ProtocolVersion};

verus! {

/// The transport a session currently uses.
#[derive(PartialEq, Eq, Structural, Debug, Clone, Copy)]
pub enum TransportType {
    Polling,
    Websocket,
}

/// Why a session ended.
#[derive(PartialEq, Eq, Structural, Debug, Clone, Copy)]
pub enum DisconnectReason {
    TransportClose,
    TransportError,
    HeartbeatTimeout,
    MultipleHttpPollingError,
    PacketParsingError,
    ServerDisconnect,
    ClientDisconnect,
}

/// Why a packet could not be queued.
#[derive(PartialEq, Eq, Structural, Debug, Clone, Copy)]
pub enum SendError {
    /// The session has ended.
    Closed,
    /// The queue is at its capacity.
    BufferFull,
}

/// One connected client.
pub struct Session {
    sid: Sid,
    protocol: ProtocolVersion,
    transport: TransportType,
    outbox: VecDeque<Packet>,
    capacity: usize,
    closed: Option<DisconnectReason>,
    rx_locked: bool,
    heartbeat_pending: bool,
    enqueued: Ghost<Seq<PacketView>>,
    delivered: Ghost<Seq<PacketView>>,
}

impl Session {
    pub closed spec fn spec_sid(&self) -> Sid {
        self.sid
    }

    pub closed spec fn spec_protocol(&self) -> ProtocolVersion {
        self.protocol
    }

    pub closed spec fn spec_transport(&self) -> TransportType {
        self.transport
    }

    /// The packets waiting to be sent, oldest first.
    pub closed spec fn queued(&self) -> Seq<PacketView> {
        views(self.outbox@)
    }

    pub closed spec fn spec_capacity(&self) -> nat {
        self.capacity as nat
    }

    /// The reason the session ended, once it has.
    pub closed spec fn close_reason(&self) -> Option<DisconnectReason> {
        self.closed
    }

    /// Whether a reader holds the queue.
    pub closed spec fn rx_held(&self) -> bool {
        self.rx_locked
    }

    /// Whether a heartbeat signal waits to be consumed.
    pub closed spec fn spec_heartbeat_pending(&self) -> bool {
        self.heartbeat_pending
    }

    /// Every packet ever queued, in order.
    pub closed spec fn enqueued(&self) -> Seq<PacketView> {
        self.enqueued@
    }

    /// Every packet handed to a transport, in order.
    pub closed spec fn delivered(&self) -> Seq<PacketView> {
        self.delivered@
    }

    /// The packets queued are those delivered, then those still waiting; the
    /// queue stays within its capacity.
    pub open spec fn wf(&self) -> bool {
        &&& self.enqueued() == self.delivered() + self.queued()
        &&& self.queued().len() <= self.spec_capacity()
        &&& 0 < self.spec_capacity() <= usize::MAX
    }

    /// A fresh, open session with an empty queue that holds up to `capacity`
    /// packets.
    pub fn new(sid: Sid, protocol: ProtocolVersion, transport: TransportType, capacity: usize) -> (r:
        Session)
        requires
            capacity > 0,
        ensures
            r.wf(),
            r.spec_sid() == sid,
            r.spec_protocol() == protocol,
            r.spec_transport() == transport,
            r.spec_capacity() == capacity,
            r.queued().len() == 0,
            r.enqueued().len() == 0,
            r.close_reason().is_none(),
            !r.rx_held(),
            !r.spec_heartbeat_pending(),
    {
        let s = Session {
            sid,
            protocol,
            transport,
            outbox: VecDeque::new(),
            capacity,
            closed: None,
            rx_locked: false,
            heartbeat_pending: false,
            enqueued: Ghost(Seq::empty()),
            delivered: Ghost(Seq::empty()),
        };
        assert(s.queued() == Seq::<PacketView>::empty());
        s
    }

    pub fn sid(&self) -> (r: Sid)
        ensures
            r == self.spec_sid(),
    {
        self.sid
    }

    pub fn protocol(&self) -> (r: ProtocolVersion)
        ensures
            r == self.spec_protocol(),
    {
        self.protocol
    }

    /// Whether the session uses long polling.
    pub fn is_http(&self) -> (r: bool)
        ensures
            r == (self.spec_transport() == TransportType::Polling),
    {
        self.transport == TransportType::Polling
    }

    /// Whether the session uses a WebSocket.
    pub fn is_ws(&self) -> (r: bool)
        ensures
            r == (self.spec_transport() == TransportType::Websocket),
    {
        self.transport == TransportType::Websocket
    }

    /// Whether a reader holds the queue.
    pub fn rx_held_now(&self) -> (r: bool)
        ensures
            r == self.rx_held(),
    {
        self.rx_locked
    }

    /// The reason the session ended, once it has.
    pub fn reason(&self) -> (r: Option<DisconnectReason>)
        ensures
            r == self.close_reason(),
    {
        self.closed
    }

    /// Whether a heartbeat signal waits to be consumed.
    pub fn heartbeat_pending(&self) -> (r: bool)
        ensures
            r == self.spec_heartbeat_pending(),
    {
        self.heartbeat_pending
    }

    /// Whether the session has ended.
    pub fn is_closed(&self) -> (r: bool)
        ensures
            r == self.close_reason().is_some(),
    {
        self.closed.is_some()
    }

    /// How many packets the queue holds at most.
    pub fn capacity(&self) -> (r: usize)
        ensures
            r == self.spec_capacity(),
    {
        self.capacity
    }

    /// How many packets wait in the queue.
    pub fn queued_len(&self) -> (r: usize)
        ensures
            r == self.queued().len(),
    {
        self.outbox.len()
    }

    /// Queue `p` behind the packets already waiting.
    pub fn send(&mut self, p: Packet) -> (r: Result<(), SendError>)
        requires
            old(self).wf(),
        ensures
            final(self).wf(),
            old(self).close_reason().is_some() ==> r == Err::<(), SendError>(SendError::Closed),
            old(self).close_reason().is_none() && old(self).queued().len() == old(self).spec_capacity() ==> r == Err::<(), SendError>(SendError::BufferFull),
            r is Ok <==> old(self).close_reason().is_none() && old(self).queued().len() < old(self).spec_capacity(),
            r is Ok ==> final(self).queued() == old(self).queued().push(p@) && final(self).enqueued() == old(self).enqueued().push(p@),
            r is Err ==> *final(self) == *old(self),
            final(self).delivered() == old(self).delivered(),
            final(self).close_reason() == old(self).close_reason(),
            final(self).rx_held() == old(self).rx_held(),
            final(self).spec_transport() == old(self).spec_transport(),
            final(self).spec_sid() == old(self).spec_sid(),
            final(self).spec_protocol() == old(self).spec_protocol(),
            final(self).spec_capacity() == old(self).spec_capacity(),
            final(self).spec_heartbeat_pending() == old(self).spec_heartbeat_pending(),
    {
        if self.closed.is_some() {
            return Err(SendError::Closed);
        }
        if self.outbox.len() >= self.capacity {
            return Err(SendError::BufferFull);
        }
        let ghost v = p@;
        self.outbox.push_back(p);
        self.enqueued = Ghost(self.enqueued@.push(v));
        assert(views(self.outbox@) == views(old(self).outbox@).push(v));
        assert(self.enqueued@ == self.delivered@ + views(self.outbox@));
        Ok(())
    }

    /// End the session for `reason`. Only the first call ends it, and only
    /// that call returns `true`: the application hears of a close once.
    pub fn close(&mut self, reason: DisconnectReason) -> (r: bool)
        requires
            old(self).wf(),
        ensures
            final(self).wf(),
            r == old(self).close_reason().is_none(),
            final(self).close_reason() == if r {
                Some(reason)
            } else {
                old(self).close_reason()
            },
            final(self).queued() == old(self).queued(),
            final(self).enqueued() == old(self).enqueued(),
            final(self).delivered() == old(self).delivered(),
            final(self).rx_held() == old(self).rx_held(),
            final(self).spec_transport() == old(self).spec_transport(),
            final(self).spec_sid() == old(self).spec_sid(),
            final(self).spec_protocol() == old(self).spec_protocol(),
            final(self).spec_capacity() == old(self).spec_capacity(),
            final(self).spec_heartbeat_pending() == old(self).spec_heartbeat_pending(),
    {
        if self.closed.is_some() {
            return false;
        }
        self.closed = Some(reason);
        true
    }

    /// Take the lock over the queue's reader without waiting. It fails, and
    /// nothing changes, when another reader holds it.
    pub fn try_lock_rx(&mut self) -> (r: bool)
        requires
            old(self).wf(),
        ensures
            final(self).wf(),
            r == !old(self).rx_held(),
            final(self).rx_held(),
            final(self).queued() == old(self).queued(),
            final(self).enqueued() == old(self).enqueued(),
            final(self).delivered() == old(self).delivered(),
            final(self).close_reason() == old(self).close_reason(),
            final(self).spec_transport() == old(self).spec_transport(),
            final(self).spec_sid() == old(self).spec_sid(),
            final(self).spec_protocol() == old(self).spec_protocol(),
            final(self).spec_capacity() == old(self).spec_capacity(),
            final(self).spec_heartbeat_pending() == old(self).spec_heartbeat_pending(),
    {
        if self.rx_locked {
            return false;
        }
        self.rx_locked = true;
        true
    }

    /// Give the lock over the queue's reader back.
    pub fn unlock_rx(&mut self)
        requires
            old(self).wf(),
        ensures
            final(self).wf(),
            !final(self).rx_held(),
            final(self).queued() == old(self).queued(),
            final(self).enqueued() == old(self).enqueued(),
            final(self).delivered() == old(self).delivered(),
            final(self).close_reason() == old(self).close_reason(),
            final(self).spec_transport() == old(self).spec_transport(),
            final(self).spec_sid() == old(self).spec_sid(),
            final(self).spec_protocol() == old(self).spec_protocol(),
            final(self).spec_capacity() == old(self).spec_capacity(),
            final(self).spec_heartbeat_pending() == old(self).spec_heartbeat_pending(),
    {
        self.rx_locked = false;
    }

    /// Take the next batch for a poll: `None` while the queue is empty (the
    /// poll then waits), else the framed payload of the packets taken.
    pub fn take_batch(&mut self, max_payload: u64) -> (r: Option<Vec<char>>)
        requires
            old(self).wf(),
            old(self).rx_held(),
        ensures
            final(self).wf(),
            r is None <==> old(self).queued().len() == 0,
            r is None ==> *final(self) == *old(self),
            r matches Some(body) ==> exists|k: nat|
                is_batch_len(old(self).queued(), old(self).spec_protocol(), max_payload as nat, k)
                    && body@ == payload(old(self).queued().take(k as int), old(self).spec_protocol())
                    && final(self).queued() == old(self).queued().skip(k as int)
                    && final(self).delivered() == old(self).delivered() + old(self).queued().take(k as int)
                    && (forall|i: int| 0 <= i < k ==> packet_faithful(#[trigger] old(self).queued()[i])),
            final(self).enqueued() == old(self).enqueued(),
            final(self).rx_held(),
            final(self).close_reason() == old(self).close_reason(),
            final(self).spec_transport() == old(self).spec_transport(),
            final(self).spec_sid() == old(self).spec_sid(),
            final(self).spec_protocol() == old(self).spec_protocol(),
            final(self).spec_capacity() == old(self).spec_capacity(),
            final(self).spec_heartbeat_pending() == old(self).spec_heartbeat_pending(),
    {
        if self.outbox.len() == 0 {
            return None;
        }
        let ghost q0 = self.outbox@;
        let (body, k) = encode_batch(&mut self.outbox, self.protocol, max_payload);
        proof {
            let q = views(q0);
            assert(views(self.outbox@) == q.skip(k as int));
            assert(q.take(k as int) + q.skip(k as int) == q);
            let d0 = self.delivered@;
            assert((d0 + q.take(k as int)) + q.skip(k as int) =~= d0 + q);
            self.delivered@ = self.delivered@ + q.take(k as int);
            assert(self.enqueued@ == self.delivered@ + views(self.outbox@));
        }
        Some(body)
    }

    /// Take the oldest queued packet, if any, for a WebSocket writer.
    pub fn take_one(&mut self) -> (r: Option<Packet>)
        requires
            old(self).wf(),
        ensures
            final(self).wf(),
            r is None <==> old(self).queued().len() == 0,
            r matches Some(p) ==> p@ == old(self).queued()[0] && final(self).queued() == old(self).queued().drop_first() && final(self).delivered() == old(self).delivered().push(p@),
            r is None ==> *final(self) == *old(self),
            final(self).enqueued() == old(self).enqueued(),
            final(self).rx_held() == old(self).rx_held(),
            final(self).close_reason() == old(self).close_reason(),
            final(self).spec_transport() == old(self).spec_transport(),
            final(self).spec_sid() == old(self).spec_sid(),
            final(self).spec_protocol() == old(self).spec_protocol(),
            final(self).spec_capacity() == old(self).spec_capacity(),
            final(self).spec_heartbeat_pending() == old(self).spec_heartbeat_pending(),
    {
        let ghost q0 = views(self.outbox@);
        if self.outbox.len() == 0 {
            return None;
        }
        match self.outbox.pop_front() {
            Some(p) => {
                proof {
                    assert(views(self.outbox@) == q0.drop_first());
                    self.delivered@ = self.delivered@.push(p@);
                    assert(self.delivered@ + views(self.outbox@) =~= old(self).delivered@ + q0);
                }
                Some(p)
            },
            None => None,
        }
    }

    /// Record a heartbeat signal (a ping or pong from the client). A signal
    /// that finds one still pending means the heartbeat has stalled.
    pub fn heartbeat_signal(&mut self) -> (r: bool)
        requires
            old(self).wf(),
        ensures
            final(self).wf(),
            r == !old(self).spec_heartbeat_pending(),
            final(self).spec_heartbeat_pending(),
            final(self).queued() == old(self).queued(),
            final(self).enqueued() == old(self).enqueued(),
            final(self).delivered() == old(self).delivered(),
            final(self).rx_held() == old(self).rx_held(),
            final(self).close_reason() == old(self).close_reason(),
            final(self).spec_transport() == old(self).spec_transport(),
            final(self).spec_sid() == old(self).spec_sid(),
            final(self).spec_protocol() == old(self).spec_protocol(),
            final(self).spec_capacity() == old(self).spec_capacity(),
    {
        if self.heartbeat_pending {
            return false;
        }
        self.heartbeat_pending = true;
        true
    }

    /// The heartbeat's timeout has run out: consume the pending signal, or,
    /// when none came, close the session for `HeartbeatTimeout`. Returns
    /// whether the session is still alive.
    pub fn heartbeat_expired(&mut self) -> (r: bool)
        requires
            old(self).wf(),
        ensures
            final(self).wf(),
            r == (old(self).spec_heartbeat_pending() && old(self).close_reason().is_none()),
            !final(self).spec_heartbeat_pending(),
            final(self).close_reason() == if old(self).spec_heartbeat_pending() || old(self).close_reason().is_some() {
                old(self).close_reason()
            } else {
                Some(DisconnectReason::HeartbeatTimeout)
            },
            final(self).queued() == old(self).queued(),
            final(self).enqueued() == old(self).enqueued(),
            final(self).delivered() == old(self).delivered(),
            final(self).rx_held() == old(self).rx_held(),
            final(self).spec_transport() == old(self).spec_transport(),
            final(self).spec_sid() == old(self).spec_sid(),
            final(self).spec_protocol() == old(self).spec_protocol(),
            final(self).spec_capacity() == old(self).spec_capacity(),
    {
        if self.heartbeat_pending {
            self.heartbeat_pending = false;
            return self.closed.is_none();
        }
        self.close(DisconnectReason::HeartbeatTimeout);
        false
    }

    /// Switch the session to its WebSocket, once no poll holds the queue.
    pub fn upgrade_to_websocket(&mut self)
        requires
            old(self).wf(),
            !old(self).rx_held(),
        ensures
            final(self).wf(),
            final(self).spec_transport() == TransportType::Websocket,
            !final(self).rx_held(),
            final(self).queued() == old(self).queued(),
            final(self).enqueued() == old(self).enqueued(),
            final(self).delivered() == old(self).delivered(),
            final(self).close_reason() == old(self).close_reason(),
            final(self).spec_sid() == old(self).spec_sid(),
            final(self).spec_protocol() == old(self).spec_protocol(),
            final(self).spec_capacity() == old(self).spec_capacity(),
            final(self).spec_heartbeat_pending() == old(self).spec_heartbeat_pending(),
    {
        self.transport = TransportType::Websocket;
    }
}

/// The packets handed to a transport are exactly those queued and no longer
/// waiting, in the order they were queued.
pub proof fn lemma_delivery_accounting(s: &Session)
    requires
        s.wf(),
    ensures
        s.delivered().len() == s.enqueued().len() - s.queued().len(),
        s.delivered() == s.enqueued().take(s.delivered().len() as int),
        s.queued() == s.enqueued().skip(s.delivered().len() as int),
{
    assert(s.enqueued().take(s.delivered().len() as int) == s.delivered());
    assert(s.enqueued().skip(s.delivered().len() as int) == s.queued());
}

} // verus!
