//! The operator pipeline: a fluent builder of broadcast options, consumed by
//! a terminal operation on a namespace.

use itertools::Itertools;
use vstd::prelude::*;

use crate::adapter::{room_views, BroadcastOptions, Namespace, Room, Sid};
use crate::engine::Engine;
use crate::session::{DisconnectReason, SendError};
use crate::socketio::{
    accepts, attachment_views, broadcast, broadcast_with_ack, encode_event, event_packets,
    event_text, failures, AckCollector, effective_timeout,
};

verus! {

/// Something that names one or more rooms.
pub trait RoomParam: Sized {
    /// The room names, in order.
    spec fn room_seq(&self) -> Seq<Seq<char>>;

    /// The rooms, as owned names.
    fn into_room_vec(self) -> (r: Vec<Room>)
        ensures
            room_views(r@) == self.room_seq(),
    ;
}

impl RoomParam for Room {
    open spec fn room_seq(&self) -> Seq<Seq<char>> {
        seq![self@]
    }

    fn into_room_vec(self) -> (r: Vec<Room>) {
        let r = vec![self];
        assert(room_views(r@) =~= seq![r@[0]@]);
        r
    }
}

impl RoomParam for Vec<Room> {
    open spec fn room_seq(&self) -> Seq<Seq<char>> {
        room_views(self@)
    }

    fn into_room_vec(self) -> (r: Vec<Room>) {
        self
    }
}

impl RoomParam for &'static str {
    open spec fn room_seq(&self) -> Seq<Seq<char>> {
        seq![self@]
    }

    fn into_room_vec(self) -> (r: Vec<Room>) {
        let r = vec![String::from_str(self)];
        assert(room_views(r@) =~= seq![r@[0]@]);
        r
    }
}

impl<const N: usize> RoomParam for [&'static str; N] {
    open spec fn room_seq(&self) -> Seq<Seq<char>> {
        self@.map_values(|s: &'static str| s@)
    }

    fn into_room_vec(self) -> (r: Vec<Room>) {
        let mut r: Vec<Room> = Vec::new();
        let mut i: usize = 0;
        while i < N
            invariant
                i <= N,
                N == self@.len(),
                room_views(r@) == self@.map_values(|s: &'static str| s@).take(i as int),
            decreases N - i,
        {
            let ghost before = room_views(r@);
            r.push(String::from_str(self[i]));
            assert(room_views(r@) == before.push(self@[i as int]@));
            assert(self@.map_values(|s: &'static str| s@).take(i + 1) == self@.map_values(|s: &'static str| s@).take(i as int).push(self@[i as int]@));
            i = i + 1;
        }
        assert(self@.map_values(|s: &'static str| s@).take(N as int) == self@.map_values(|s: &'static str| s@));
        r
    }
}

/// The rooms of `s` with every repeat of an earlier room left out.
pub open spec fn first_occurrences(s: Seq<Seq<char>>) -> Seq<Seq<char>>
    decreases s.len(),
{
    if s.len() == 0 {
        s
    } else {
        let d = first_occurrences(s.drop_last());
        if d.contains(s.last()) {
            d
        } else {
            d.push(s.last())
        }
    }
}

/// Relies on itertools' `Itertools::unique`: it yields each item the first
/// time it occurs and skips later equal items, keeping the input order.
#[verifier::external_body]
fn unique_rooms(rooms: Vec<Room>) -> (r: Vec<Room>)
    ensures
        room_views(r@) == first_occurrences(room_views(rooms@)),
{
    rooms.into_iter().unique().collect()
}

/// Selects sockets and configures the packet that a terminal operation sends.
pub struct Operators {
    /// The selection built so far.
    pub opts: BroadcastOptions,
    /// Binary attachments of the next emitted event.
    pub binary: Vec<Vec<u8>>,
}

impl Operators {
    /// A pipeline that starts from the socket `sid`, or from the namespace.
    pub fn new(sid: Option<Sid>) -> (r: Operators)
        ensures
            r.opts.sid == sid,
            r.opts.rooms@.len() == 0,
            r.opts.except@.len() == 0,
            !r.opts.broadcast,
            !r.opts.local,
            r.opts.timeout_ms.is_none(),
            r.binary@.len() == 0,
    {
        Operators { opts: BroadcastOptions::new(sid), binary: Vec::new() }
    }

    /// Append the rooms, without repeats, to `v`.
    fn extend_rooms<R: RoomParam>(v: &mut Vec<Room>, rooms: R)
        ensures
            room_views(final(v)@) == room_views(old(v)@) + first_occurrences(rooms.room_seq()),
    {
        let fresh = unique_rooms(rooms.into_room_vec());
        let ghost start = old(v)@;
        let mut i: usize = 0;
        while i < fresh.len()
            invariant
                i <= fresh@.len(),
                room_views(v@) == room_views(start) + room_views(fresh@).take(i as int),
            decreases fresh@.len() - i,
        {
            let ghost before = v@;
            v.push(fresh[i].clone());
            assert(room_views(v@) == room_views(before).push(fresh@[i as int]@));
            assert(room_views(fresh@).take(i + 1) == room_views(fresh@).take(i as int).push(
                fresh@[i as int]@,
            ));
            i = i + 1;
        }
        assert(room_views(fresh@).take(fresh@.len() as int) == room_views(fresh@));
    }

    /// Select the members of `rooms`, leaving out the emitting socket.
    pub fn to<R: RoomParam>(self, rooms: R) -> (r: Operators)
        ensures
            room_views(r.opts.rooms@) == room_views(self.opts.rooms@) + first_occurrences(
                rooms.room_seq(),
            ),
            r.opts.except@ == self.opts.except@,
            r.opts.sid == self.opts.sid,
            r.opts.broadcast,
            r.opts.local == self.opts.local,
            r.opts.timeout_ms == self.opts.timeout_ms,
            r.binary@ == self.binary@,
    {
        let mut s = self;
        Self::extend_rooms(&mut s.opts.rooms, rooms);
        s.opts.broadcast = true;
        s
    }

    /// Select the members of `rooms`, the emitting socket included.
    pub fn within<R: RoomParam>(self, rooms: R) -> (r: Operators)
        ensures
            room_views(r.opts.rooms@) == room_views(self.opts.rooms@) + first_occurrences(
                rooms.room_seq(),
            ),
            r.opts.except@ == self.opts.except@,
            r.opts.sid == self.opts.sid,
            r.opts.broadcast == self.opts.broadcast,
            r.opts.local == self.opts.local,
            r.opts.timeout_ms == self.opts.timeout_ms,
            r.binary@ == self.binary@,
    {
        let mut s = self;
        Self::extend_rooms(&mut s.opts.rooms, rooms);
        s
    }

    /// Leave out the members of `rooms`, and the emitting socket.
    pub fn except<R: RoomParam>(self, rooms: R) -> (r: Operators)
        ensures
            room_views(r.opts.except@) == room_views(self.opts.except@) + first_occurrences(
                rooms.room_seq(),
            ),
            r.opts.rooms@ == self.opts.rooms@,
            r.opts.sid == self.opts.sid,
            r.opts.broadcast,
            r.opts.local == self.opts.local,
            r.opts.timeout_ms == self.opts.timeout_ms,
            r.binary@ == self.binary@,
    {
        let mut s = self;
        Self::extend_rooms(&mut s.opts.except, rooms);
        s.opts.broadcast = true;
        s
    }

    /// Only sockets attached to this node.
    pub fn local(self) -> (r: Operators)
        ensures
            r.opts.local,
            r.opts.rooms@ == self.opts.rooms@,
            r.opts.except@ == self.opts.except@,
            r.opts.sid == self.opts.sid,
            r.opts.broadcast == self.opts.broadcast,
            r.opts.timeout_ms == self.opts.timeout_ms,
            r.binary@ == self.binary@,
    {
        let mut s = self;
        s.opts.local = true;
        s
    }

    /// Leave out the emitting socket.
    pub fn broadcast(self) -> (r: Operators)
        ensures
            r.opts.broadcast,
            r.opts.rooms@ == self.opts.rooms@,
            r.opts.except@ == self.opts.except@,
            r.opts.sid == self.opts.sid,
            r.opts.local == self.opts.local,
            r.opts.timeout_ms == self.opts.timeout_ms,
            r.binary@ == self.binary@,
    {
        let mut s = self;
        s.opts.broadcast = true;
        s
    }

    /// Wait `timeout_ms` milliseconds for each acknowledgement.
    pub fn timeout(self, timeout_ms: u64) -> (r: Operators)
        ensures
            r.opts.timeout_ms == Some(timeout_ms),
            r.opts.rooms@ == self.opts.rooms@,
            r.opts.except@ == self.opts.except@,
            r.opts.sid == self.opts.sid,
            r.opts.broadcast == self.opts.broadcast,
            r.opts.local == self.opts.local,
            r.binary@ == self.binary@,
    {
        let mut s = self;
        s.opts.timeout_ms = Some(timeout_ms);
        s
    }

    /// Attach binary payloads to the next emitted event.
    pub fn bin(self, binary: Vec<Vec<u8>>) -> (r: Operators)
        ensures
            r.binary@ == binary@,
            r.opts.timeout_ms == self.opts.timeout_ms,
            r.opts.rooms@ == self.opts.rooms@,
            r.opts.except@ == self.opts.except@,
            r.opts.sid == self.opts.sid,
            r.opts.broadcast == self.opts.broadcast,
            r.opts.local == self.opts.local,
    {
        let mut s = self;
        s.binary = binary;
        s
    }

    /// Emit event `event` with JSON data `data` to the selected sockets of
    /// `ns`, with the attached binary payloads. Fan-out is best effort and
    /// never fails as a whole: every socket that can take the event gets it,
    /// and the sockets that could not are handed back with the reason.
    pub fn emit(self, engine: &mut Engine, ns: &Namespace, event: &String, data: &Vec<char>) -> (r: Vec<(Sid, SendError)>)
        requires
            old(engine).wf(),
            ns.wf(),
            forall|i: int| 0 <= i < ns.socket_seq().len() ==> #[trigger] ns.socket_seq()[i] < old(engine).sessions().len(),
        ensures
            final(engine).wf(),
            final(engine).sessions().len() == old(engine).sessions().len(),
            r@ == failures(old(engine), ns.resolve(&self.opts), self.binary@.len() + 1),
            forall|s: Sid| s < old(engine).sessions().len() ==> {
                let before = old(engine).sessions()[s as int];
                let after = #[trigger] final(engine).sessions()[s as int];
                if ns.resolve(&self.opts).contains(s) && accepts(old(engine), s, self.binary@.len() + 1) {
                    after.queued() == before.queued() + event_packets(
                        event_text(ns.spec_path(), event@, data@, None, self.binary@.len() as nat),
                        attachment_views(self.binary@),
                    )
                } else {
                    after == before
                }
            },
    {
        let text = encode_event(ns.path(), event, data, None, self.binary.len() as u64);
        broadcast(engine, ns, &self.opts, &text, &self.binary)
    }

    /// Emit like `emit`, with ack id `ack_id`, and gather the answers: one
    /// slot per selected socket, to be waited on for the selection's timeout,
    /// or else `default_timeout_ms`.
    pub fn emit_with_ack(self, engine: &mut Engine, ns: &Namespace, event: &String, data: &Vec<char>, ack_id: u64, default_timeout_ms: u64) -> (r: (AckCollector, Vec<(Sid, SendError)>))
        requires
            old(engine).wf(),
            ns.wf(),
            forall|i: int| 0 <= i < ns.socket_seq().len() ==> #[trigger] ns.socket_seq()[i] < old(engine).sessions().len(),
        ensures
            final(engine).wf(),
            r.0.recipients() == ns.resolve(&self.opts),
            r.0.answers().len() == ns.resolve(&self.opts).len(),
            forall|i: int| 0 <= i < r.0.answers().len() ==> #[trigger] r.0.answers()[i] is None,
            r.0.spec_ack_id() == ack_id,
            r.0.spec_timeout() == effective_timeout(&self.opts, default_timeout_ms),
            r.1@ == failures(old(engine), ns.resolve(&self.opts), self.binary@.len() + 1),
            final(engine).sessions().len() == old(engine).sessions().len(),
            forall|s: Sid| s < old(engine).sessions().len() ==> {
                let before = old(engine).sessions()[s as int];
                let after = #[trigger] final(engine).sessions()[s as int];
                if ns.resolve(&self.opts).contains(s) && accepts(old(engine), s, self.binary@.len() + 1) {
                    after.queued() == before.queued() + event_packets(
                        event_text(ns.spec_path(), event@, data@, Some(ack_id), self.binary@.len() as nat),
                        attachment_views(self.binary@),
                    )
                } else {
                    after == before
                }
            },
    {
        broadcast_with_ack(engine, ns, &self.opts, ns.path(), event, data, &self.binary, ack_id, default_timeout_ms)
    }

    /// The sockets of `ns` that the selection holds.
    pub fn sockets(self, ns: &Namespace) -> (r: Vec<Sid>)
        requires
            ns.wf(),
        ensures
            r@ == ns.resolve(&self.opts),
            r@.no_duplicates(),
    {
        ns.sockets(&self.opts)
    }

    /// Disconnect the selected sockets of `ns`: they leave the namespace and
    /// their rooms, and their sessions end for `ServerDisconnect`. Returns
    /// them.
    pub fn disconnect(self, engine: &mut Engine, ns: &mut Namespace) -> (r: Vec<Sid>)
        requires
            old(engine).wf(),
            old(ns).wf(),
            forall|i: int| 0 <= i < old(ns).socket_seq().len() ==> #[trigger] old(ns).socket_seq()[i] < old(engine).sessions().len(),
        ensures
            r@ == old(ns).resolve(&self.opts),
            final(ns).wf(),
            final(ns).spec_path() == old(ns).spec_path(),
            forall|t: Sid|
                #[trigger] final(ns).socket_seq().contains(t) == (old(ns).socket_seq().contains(t)
                    && !r@.contains(t)),
            forall|t: Sid, room: Seq<char>|
                #[trigger] final(ns).is_member(t, room) == (old(ns).is_member(t, room)
                    && !r@.contains(t)),
            final(engine).wf(),
            final(engine).sessions().len() == old(engine).sessions().len(),
            forall|t: Sid| t < old(engine).sessions().len() ==> if r@.contains(t) {
                !final(engine).is_live(t) && (old(engine).is_live(t) ==> #[trigger] final(engine).sessions()[t as int].close_reason() == Some(DisconnectReason::ServerDisconnect))
            } else {
                final(engine).sessions()[t as int] == old(engine).sessions()[t as int]
            },
    {
        let gone = ns.disconnect_socket(&self.opts);
        let ghost e0 = *old(engine);
        proof {
            crate::adapter::lemma_resolve_within_namespace(old(ns), &self.opts);
            crate::adapter::lemma_resolve_no_duplicates(old(ns), &self.opts);
            assert forall|j: int| 0 <= j < gone@.len() implies #[trigger] gone@[j] < e0.sessions().len() by {
                assert(gone@.to_set().contains(gone@[j]));
                assert(old(ns).socket_seq().to_set().contains(gone@[j]));
                let k = choose|k: int| 0 <= k < old(ns).socket_seq().len() && old(ns).socket_seq()[k] == gone@[j];
                assert(old(ns).socket_seq()[k] < e0.sessions().len());
            }
        }
        let mut i: usize = 0;
        while i < gone.len()
            invariant
                i <= gone@.len(),
                gone@ == old(ns).resolve(&self.opts),
                gone@.no_duplicates(),
                forall|j: int| 0 <= j < gone@.len() ==> #[trigger] gone@[j] < e0.sessions().len(),
                engine.wf(),
                e0 == *old(engine),
                engine.sessions().len() == e0.sessions().len(),
                forall|t: Sid| t < e0.sessions().len() ==> if gone@.take(i as int).contains(t) {
                    !engine.is_live(t) && (e0.is_live(t) ==> #[trigger] engine.sessions()[t as int].close_reason() == Some(DisconnectReason::ServerDisconnect))
                } else {
                    engine.sessions()[t as int] == e0.sessions()[t as int]
                },
            decreases gone@.len() - i,
        {
            let sid = gone[i];
            proof {
                assert(gone@.take(i + 1) == gone@.take(i as int).push(sid));
                assert forall|t: Sid| #[trigger] gone@.take(i + 1).contains(t) == (gone@.take(i as int).contains(t) || t == sid) by {
                    if gone@.take(i + 1).contains(t) {
                        let k = choose|k: int| 0 <= k < i + 1 && #[trigger] gone@.take(i + 1)[k] == t;
                        if k < i {
                            assert(gone@.take(i as int)[k] == t);
                        }
                    }
                    if gone@.take(i as int).contains(t) {
                        let k = choose|k: int| 0 <= k < i && #[trigger] gone@.take(i as int)[k] == t;
                        assert(gone@.take(i + 1)[k] == t);
                    }
                    if t == sid {
                        assert(gone@.take(i + 1)[i as int] == sid);
                    }
                }
                assert(!gone@.take(i as int).contains(sid)) by {
                    if gone@.take(i as int).contains(sid) {
                        let k = choose|k: int| 0 <= k < i && #[trigger] gone@.take(i as int)[k] == sid;
                        assert(gone@[k] == gone@[i as int]);
                    }
                }
            }
            engine.close_session(sid, DisconnectReason::ServerDisconnect);
            i = i + 1;
        }
        assert(gone@.take(gone@.len() as int) == gone@);
        gone
    }

    /// Put the selected sockets of `ns` in each of `rooms`.
    pub fn join<R: RoomParam>(self, ns: &mut Namespace, rooms: R)
        requires
            old(ns).wf(),
        ensures
            final(ns).wf(),
            final(ns).spec_path() == old(ns).spec_path(),
            final(ns).socket_seq() == old(ns).socket_seq(),
            forall|t: Sid, room: Seq<char>|
                #[trigger] final(ns).is_member(t, room) == (old(ns).is_member(t, room) || (old(ns).resolve(&self.opts).contains(t) && rooms.room_seq().contains(room))),
    {
        let v = rooms.into_room_vec();
        ns.add_sockets(&self.opts, &v);
    }

    /// Take the selected sockets of `ns` out of each of `rooms`.
    pub fn leave<R: RoomParam>(self, ns: &mut Namespace, rooms: R)
        requires
            old(ns).wf(),
        ensures
            final(ns).wf(),
            final(ns).spec_path() == old(ns).spec_path(),
            final(ns).socket_seq() == old(ns).socket_seq(),
            forall|t: Sid, room: Seq<char>|
                #[trigger] final(ns).is_member(t, room) == (old(ns).is_member(t, room) && !(old(ns).resolve(&self.opts).contains(t) && rooms.room_seq().contains(room))),
    {
        let v = rooms.into_room_vec();
        ns.del_sockets(&self.opts, &v);
    }
}

} // verus!
