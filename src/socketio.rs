//! Socket.IO on top of the engine: event packets, fan-out to the selected
//! sockets of a namespace, and the gathering of acknowledgements.

use vstd::prelude::*;

use crate::adapter::{BroadcastOptions, Namespace, Sid};
use crate::engine::Engine;
use crate::packet::{decimal, push_chars, push_decimal, push_str, string_of, Packet, PacketView};
use crate::session::{DisconnectReason, SendError};

verus! {

/// The hexadecimal digit of `d`.
pub open spec fn hex_char(d: nat) -> char {
    if d < 10 {
        crate::packet::digit_char(d)
    } else if d == 10 {
        'a'
    } else if d == 11 {
        'b'
    } else if d == 12 {
        'c'
    } else if d == 13 {
        'd'
    } else if d == 14 {
        'e'
    } else {
        'f'
    }
}

/// How `c` is written inside a JSON string.
pub open spec fn escape_char(c: char) -> Seq<char> {
    if c == '"' {
        seq!['\\', '"']
    } else if c == '\\' {
        seq!['\\', '\\']
    } else if (c as nat) < 32 {
        seq!['\\', 'u', '0', '0', hex_char((c as nat) / 16), hex_char((c as nat) % 16)]
    } else {
        seq![c]
    }
}

/// `s` written inside a JSON string.
pub open spec fn json_escape(s: Seq<char>) -> Seq<char>
    decreases s.len(),
{
    if s.len() == 0 {
        seq![]
    } else {
        json_escape(s.drop_last()) + escape_char(s.last())
    }
}

/// `s` as a JSON string.
pub open spec fn json_str(s: Seq<char>) -> Seq<char> {
    seq!['"'] + json_escape(s) + seq!['"']
}

/// What a packet of namespace `nsp` carries before its payload: nothing for
/// the main namespace, else the path and a comma.
pub open spec fn nsp_prefix(nsp: Seq<char>) -> Seq<char> {
    if nsp == seq!['/'] {
        seq![]
    } else {
        nsp + seq![',']
    }
}

/// The placeholders that stand for attachments `0 .. n`.
pub open spec fn placeholders(n: nat) -> Seq<char>
    decreases n,
{
    if n == 0 {
        seq![]
    } else {
        placeholders((n - 1) as nat) + ",{\"_placeholder\":true,\"num\":"@ + decimal((n - 1) as nat)
            + seq!['}']
    }
}

/// The text of an event packet: `2`, or `5` with the attachment count and a
/// dash when there are attachments; then the namespace, the ack id if any,
/// and the array of the event name, the data and the placeholders.
pub open spec fn event_text(
    nsp: Seq<char>,
    event: Seq<char>,
    data: Seq<char>,
    ack: Option<u64>,
    attachments: nat,
) -> Seq<char> {
    (if attachments == 0 {
        seq!['2']
    } else {
        seq!['5'] + decimal(attachments) + seq!['-']
    }) + nsp_prefix(nsp) + (match ack {
        Some(id) => decimal(id as nat),
        None => seq![],
    }) + seq!['['] + json_str(event) + seq![','] + data + placeholders(attachments) + seq![']']
}

/// The hexadecimal digit of `d`.
fn hex_of(d: u32) -> (c: char)
    requires
        d < 16,
    ensures
        c == hex_char(d as nat),
{
    if d < 10 {
        crate::packet::digit_of(d as u64)
    } else if d == 10 {
        'a'
    } else if d == 11 {
        'b'
    } else if d == 12 {
        'c'
    } else if d == 13 {
        'd'
    } else if d == 14 {
        'e'
    } else {
        'f'
    }
}

/// Append `s` as a JSON string to `out`.
pub fn push_json_str(out: &mut Vec<char>, s: &String)
    ensures
        final(out)@ == old(out)@ + json_str(s@),
{
    out.push('"');
    let ghost start = out@;
    let t = s.as_str();
    let n = t.unicode_len();
    let mut i: usize = 0;
    while i < n
        invariant
            n == s@.len(),
            t@ == s@,
            i <= n,
            out@ == start + json_escape(s@.take(i as int)),
        decreases n - i,
    {
        let c = t.get_char(i);
        let ghost before = out@;
        if c == '"' {
            out.push('\\');
            out.push('"');
        } else if c == '\\' {
            out.push('\\');
            out.push('\\');
        } else if (c as u32) < 32 {
            out.push('\\');
            out.push('u');
            out.push('0');
            out.push('0');
            out.push(hex_of((c as u32) / 16));
            out.push(hex_of((c as u32) % 16));
        } else {
            out.push(c);
        }
        proof {
            assert(out@ == before + escape_char(c));
            assert(s@.take(i + 1).drop_last() == s@.take(i as int));
            assert(s@.take(i + 1).last() == c);
        }
        i = i + 1;
    }
    assert(s@.take(n as int) == s@);
    out.push('"');
    assert(out@ == old(out)@ + json_str(s@));
}

/// The text of an event packet; see `event_text`.
pub fn encode_event(nsp: &String, event: &String, data: &Vec<char>, ack: Option<u64>, attachments: u64) -> (r: Vec<char>)
    ensures
        r@ == event_text(nsp@, event@, data@, ack, attachments as nat),
{
    let mut out: Vec<char> = Vec::new();
    if attachments == 0 {
        out.push('2');
    } else {
        out.push('5');
        push_decimal(&mut out, attachments);
        out.push('-');
    }
    let ghost head = out@;
    let t = nsp.as_str();
    let main = t.unicode_len() == 1 && t.get_char(0) == '/';
    assert(main == (nsp@ == seq!['/'])) by {
        if nsp@ == seq!['/'] {
            assert(nsp@[0] == '/');
        }
        if main {
            assert(nsp@ =~= seq!['/']);
        }
    }
    if !main {
        push_str(&mut out, t);
        out.push(',');
    }
    assert(out@ == head + nsp_prefix(nsp@));
    match ack {
        Some(id) => push_decimal(&mut out, id),
        None => {},
    }
    out.push('[');
    push_json_str(&mut out, event);
    out.push(',');
    push_chars(&mut out, data);
    let ghost before_ph = out@;
    let mut k: u64 = 0;
    while k < attachments
        invariant
            k <= attachments,
            out@ == before_ph + placeholders(k as nat),
        decreases attachments - k,
    {
        push_str(&mut out, ",{\"_placeholder\":true,\"num\":");
        push_decimal(&mut out, k);
        out.push('}');
        assert(out@ =~= before_ph + placeholders((k + 1) as nat));
        k = k + 1;
    }
    out.push(']');
    assert(out@ =~= event_text(nsp@, event@, data@, ack, attachments as nat));
    out
}

/// The packets that carry an event to one socket: its text, then each
/// attachment as binary data.
pub open spec fn event_packets(text: Seq<char>, attachments: Seq<Seq<u8>>) -> Seq<PacketView> {
    seq![PacketView::Message(text)] + attachments.map_values(|b: Seq<u8>| PacketView::Binary(b))
}

/// The views of a list of attachments.
pub open spec fn attachment_views(v: Seq<Vec<u8>>) -> Seq<Seq<u8>> {
    v.map_values(|b: Vec<u8>| b@)
}

/// Whether session `sid` of `e` can take `n` more packets.
pub open spec fn accepts(e: &Engine, sid: Sid, n: nat) -> bool {
    e.is_live(sid) && e.sessions()[sid as int].queued().len() + n <= e.sessions()[sid as int].spec_capacity()
}

/// Why session `sid` of `e` cannot take the packets.
pub open spec fn refusal(e: &Engine, sid: Sid) -> SendError {
    if e.is_live(sid) {
        SendError::BufferFull
    } else {
        SendError::Closed
    }
}

/// The sockets among `targets` that refuse `n` packets, with the reason.
pub open spec fn failures(e: &Engine, targets: Seq<Sid>, n: nat) -> Seq<(Sid, SendError)>
    decreases targets.len(),
{
    if targets.len() == 0 {
        seq![]
    } else {
        let rest = failures(e, targets.drop_last(), n);
        let s = targets.last();
        if accepts(e, s, n) {
            rest
        } else {
            rest.push((s, refusal(e, s)))
        }
    }
}

/// A copy of `b`.
fn copy_bytes(b: &Vec<u8>) -> (r: Vec<u8>)
    ensures
        r@ == b@,
{
    let mut out: Vec<u8> = Vec::new();
    let mut i: usize = 0;
    while i < b.len()
        invariant
            i <= b@.len(),
            out@ == b@.take(i as int),
        decreases b@.len() - i,
    {
        out.push(b[i]);
        assert(b@.take(i + 1) == b@.take(i as int).push(b@[i as int]));
        i = i + 1;
    }
    assert(b@.take(b@.len() as int) == b@);
    out
}

/// Queue an event with text `text` and binary `attachments` on session
/// `sid`: all of its packets, or none when the session cannot take them all.
pub fn send_event(engine: &mut Engine, sid: Sid, text: &Vec<char>, attachments: &Vec<Vec<u8>>) -> (r: Result<(), SendError>)
    requires
        old(engine).wf(),
        sid < old(engine).sessions().len(),
    ensures
        final(engine).wf(),
        final(engine).only_changed(old(engine), sid),
        r is Ok <==> accepts(old(engine), sid, attachments@.len() + 1),
        r matches Err(e) ==> e == refusal(old(engine), sid) && final(engine).sessions() == old(engine).sessions(),
        r is Ok ==> final(engine).sessions()[sid as int].queued() == old(engine).sessions()[sid as int].queued()
            + event_packets(text@, attachment_views(attachments@)),
        final(engine).sessions()[sid as int].close_reason() == old(engine).sessions()[sid as int].close_reason(),
{
    let s = engine.session(sid).unwrap();
    if s.is_closed() {
        return Err(SendError::Closed);
    }
    let room = s.capacity() - s.queued_len();
    if attachments.len() >= room {
        return Err(SendError::BufferFull);
    }
    let ghost q0 = old(engine).sessions()[sid as int].queued();
    let ghost atts = attachment_views(attachments@);
    assert(q0.len() + attachments@.len() + 1 <= old(engine).sessions()[sid as int].spec_capacity());
    let msg = Packet::Message(string_of(text));
    let sent = engine.send(sid, msg);
    assert(sent is Ok);
    assert(event_packets(text@, atts.take(0)) =~= seq![PacketView::Message(text@)]);
    let mut i: usize = 0;
    while i < attachments.len()
        invariant
            engine.wf(),
            engine.only_changed(old(engine), sid),
            sid < engine.sessions().len(),
            i <= attachments@.len(),
            atts == attachment_views(attachments@),
            engine.is_live(sid),
            engine.sessions()[sid as int].close_reason() == old(engine).sessions()[sid as int].close_reason(),
            engine.sessions()[sid as int].queued() == q0 + event_packets(text@, atts.take(i as int)),
            engine.sessions()[sid as int].spec_capacity() == old(engine).sessions()[sid as int].spec_capacity(),
            q0.len() + attachments@.len() + 1 <= engine.sessions()[sid as int].spec_capacity(),
        decreases attachments@.len() - i,
    {
        let b = copy_bytes(&attachments[i]);
        let ghost bv = b@;
        let ghost before = engine.sessions()[sid as int].queued();
        let ok = engine.send(sid, Packet::Binary(b));
        assert(ok is Ok);
        assert(atts.take(i + 1) == atts.take(i as int).push(bv));
        assert(event_packets(text@, atts.take(i + 1)) =~= event_packets(text@, atts.take(i as int)).push(PacketView::Binary(bv)));
        i = i + 1;
    }
    assert(atts.take(attachments@.len() as int) == atts);
    Ok(())
}

/// Queue an event on every socket of `ns` that `opts` selects. Each socket
/// takes all of the event's packets or none; the sockets that took none are
/// returned with the reason, in selection order.
pub fn broadcast(engine: &mut Engine, ns: &Namespace, opts: &BroadcastOptions, text: &Vec<char>, attachments: &Vec<Vec<u8>>) -> (r: Vec<(Sid, SendError)>)
    requires
        old(engine).wf(),
        ns.wf(),
        forall|i: int| 0 <= i < ns.socket_seq().len() ==> #[trigger] ns.socket_seq()[i] < old(engine).sessions().len(),
    ensures
        final(engine).wf(),
        final(engine).sessions().len() == old(engine).sessions().len(),
        final(engine).spec_config() == old(engine).spec_config(),
        r@ == failures(old(engine), ns.resolve(opts), attachments@.len() + 1),
        forall|s: Sid| s < old(engine).sessions().len() ==> {
            let before = old(engine).sessions()[s as int];
            let after = #[trigger] final(engine).sessions()[s as int];
            if ns.resolve(opts).contains(s) && accepts(old(engine), s, attachments@.len() + 1) {
                &&& after.queued() == before.queued() + event_packets(text@, attachment_views(attachments@))
                &&& after.close_reason() == before.close_reason()
            } else {
                after == before
            }
        },
{
    let targets = ns.sockets(opts);
    let ghost t = targets@;
    let ghost n = attachments@.len() + 1;
    let ghost e0 = *old(engine);
    let mut errors: Vec<(Sid, SendError)> = Vec::new();
    let mut i: usize = 0;
    assert(t.take(0) == Seq::<Sid>::empty());
    assert forall|j: int| 0 <= j < t.len() implies #[trigger] t[j] < e0.sessions().len() by {
        assert(t.contains(t[j]));
        ns.socket_seq().lemma_filter_contains_rev(|s: Sid| ns.selected(opts, s), t[j]);
        let k = choose|k: int| 0 <= k < ns.socket_seq().len() && ns.socket_seq()[k] == t[j];
        assert(ns.socket_seq()[k] < e0.sessions().len());
    }
    while i < targets.len()
        invariant
            engine.wf(),
            t == targets@,
            t == ns.resolve(opts),
            t.no_duplicates(),
            n == attachments@.len() + 1,
            e0 == *old(engine),
            forall|j: int| 0 <= j < t.len() ==> #[trigger] t[j] < e0.sessions().len(),
            i <= t.len(),
            engine.sessions().len() == e0.sessions().len(),
            engine.spec_config() == e0.spec_config(),
            errors@ == failures(&e0, t.take(i as int), n),
            forall|s: Sid| s < e0.sessions().len() ==> {
                let before = e0.sessions()[s as int];
                let after = #[trigger] engine.sessions()[s as int];
                if t.take(i as int).contains(s) && accepts(&e0, s, n) {
                    &&& after.queued() == before.queued() + event_packets(text@, attachment_views(attachments@))
                    &&& after.close_reason() == before.close_reason()
                } else {
                    after == before
                }
            },
        decreases t.len() - i,
    {
        let sid = targets[i];
        proof {
            assert(ns.socket_seq().filter(|s: Sid| ns.selected(opts, s)).contains(sid)) by {
                assert(t[i as int] == sid);
            }
            ns.socket_seq().lemma_filter_contains_rev(|s: Sid| ns.selected(opts, s), sid);
            assert(!t.take(i as int).contains(sid)) by {
                if t.take(i as int).contains(sid) {
                    let k = choose|k: int| 0 <= k < i && #[trigger] t.take(i as int)[k] == sid;
                    assert(t[k] == t[i as int]);
                }
            }
            assert(engine.sessions()[sid as int] == e0.sessions()[sid as int]);
            assert(t.take(i + 1) == t.take(i as int).push(sid));
        }
        let ghost mid = *engine;
        let res = send_event(engine, sid, text, attachments);
        proof {
            assert(accepts(&mid, sid, n) == accepts(&e0, sid, n));
            assert(refusal(&mid, sid) == refusal(&e0, sid));
            assert(t.take(i + 1).drop_last() == t.take(i as int));
            assert forall|s: Sid| #[trigger] t.take(i + 1).contains(s) == (t.take(i as int).contains(s) || s == sid) by {
                if t.take(i + 1).contains(s) {
                    let k = choose|k: int| 0 <= k < i + 1 && #[trigger] t.take(i + 1)[k] == s;
                    if k < i {
                        assert(t.take(i as int)[k] == s);
                    }
                }
                if t.take(i as int).contains(s) {
                    let k = choose|k: int| 0 <= k < i && #[trigger] t.take(i as int)[k] == s;
                    assert(t.take(i + 1)[k] == s);
                }
                if s == sid {
                    assert(t.take(i + 1)[i as int] == sid);
                }
            }
        }
        match res {
            Ok(()) => {},
            Err(e) => {
                errors.push((sid, e));
            },
        }
        i = i + 1;
    }
    assert(t.take(t.len() as int) == t);
    errors
}

/// End session `sid` for `reason` and take it out of namespace `ns` and all
/// of its rooms. Returns whether this call ended the session, so that the
/// application hears of it once.
pub fn close_socket(engine: &mut Engine, ns: &mut Namespace, sid: Sid, reason: DisconnectReason) -> (r: bool)
    requires
        old(engine).wf(),
        old(ns).wf(),
        sid < old(engine).sessions().len(),
    ensures
        final(engine).wf(),
        final(ns).wf(),
        final(engine).only_changed(old(engine), sid),
        r == old(engine).is_live(sid),
        !final(engine).is_live(sid),
        r ==> final(engine).sessions()[sid as int].close_reason() == Some(reason),
        final(ns).socket_seq() == old(ns).socket_seq().filter(|t: Sid| t != sid),
        final(ns).spec_path() == old(ns).spec_path(),
        forall|t: Sid, room: Seq<char>|
            #[trigger] final(ns).is_member(t, room) == (old(ns).is_member(t, room) && t != sid),
{
    let r = engine.close_session(sid, reason);
    ns.remove_socket(sid);
    r
}

/// Why an acknowledgement did not come.
#[derive(PartialEq, Eq, Structural, Debug, Clone, Copy)]
pub enum AckError {
    /// The timeout ran out first.
    Timeout,
    /// The answer could not be read.
    Decode,
    /// The socket closed first.
    Closed,
}

/// The acknowledgements awaited for one emitted event, one slot per
/// recipient.
pub struct AckCollector {
    ack_id: u64,
    timeout_ms: u64,
    slots: Vec<(Sid, Option<Vec<char>>)>,
}

/// How long to wait for acknowledgements: the selection's own timeout, or
/// else the default.
pub open spec fn effective_timeout(opts: &BroadcastOptions, default_ms: u64) -> u64 {
    match opts.timeout_ms {
        Some(t) => t,
        None => default_ms,
    }
}

impl AckCollector {
    /// The ack id that the event carried.
    pub closed spec fn spec_ack_id(&self) -> u64 {
        self.ack_id
    }

    /// How long to wait, in milliseconds.
    pub closed spec fn spec_timeout(&self) -> u64 {
        self.timeout_ms
    }

    /// The ack id that the event carried.
    pub fn ack_id(&self) -> (r: u64)
        ensures
            r == self.spec_ack_id(),
    {
        self.ack_id
    }

    /// How long to wait, in milliseconds.
    pub fn timeout_ms(&self) -> (r: u64)
        ensures
            r == self.spec_timeout(),
    {
        self.timeout_ms
    }

    /// The recipients, in order.
    pub closed spec fn recipients(&self) -> Seq<Sid> {
        self.slots@.map_values(|s: (Sid, Option<Vec<char>>)| s.0)
    }

    /// The answers so far, by slot.
    pub closed spec fn answers(&self) -> Seq<Option<Seq<char>>> {
        self.slots@.map_values(|s: (Sid, Option<Vec<char>>)| match s.1 {
            Some(v) => Some(v@),
            None => None,
        })
    }

    /// One open slot for each of `recipients`.
    pub fn new(ack_id: u64, timeout_ms: u64, recipients: &Vec<Sid>) -> (r: AckCollector)
        ensures
            r.spec_ack_id() == ack_id,
            r.spec_timeout() == timeout_ms,
            r.recipients() == recipients@,
            r.answers().len() == recipients@.len(),
            forall|i: int| 0 <= i < recipients@.len() ==> #[trigger] r.answers()[i] is None,
    {
        let mut slots: Vec<(Sid, Option<Vec<char>>)> = Vec::new();
        let mut i: usize = 0;
        while i < recipients.len()
            invariant
                i <= recipients@.len(),
                slots@.len() == i,
                forall|j: int| 0 <= j < i ==> #[trigger] slots@[j].0 == recipients@[j] && slots@[j].1 is None,
            decreases recipients@.len() - i,
        {
            slots.push((recipients[i], None));
            i = i + 1;
        }
        let r = AckCollector { ack_id, timeout_ms, slots };
        assert(r.recipients() =~= recipients@);
        assert forall|i: int| 0 <= i < recipients@.len() implies #[trigger] r.answers()[i] is None by {
            assert(r.slots@[i].0 == recipients@[i]);
            assert(r.slots@[i].1 is None);
        }
        r
    }

    /// An answer from `sid` to ack `ack_id`: it fills that socket's open
    /// slot. Returns whether it did; answers to other acks, from sockets
    /// that were not asked, or repeated ones are ignored.
    pub fn on_ack(&mut self, sid: Sid, ack_id: u64, data: Vec<char>) -> (r: bool)
        ensures
            final(self).spec_ack_id() == old(self).spec_ack_id(),
            final(self).spec_timeout() == old(self).spec_timeout(),
            final(self).recipients() == old(self).recipients(),
            r == (ack_id == old(self).spec_ack_id() && exists|i: int| 0 <= i < old(self).recipients().len()
                && old(self).recipients()[i] == sid && #[trigger] old(self).answers()[i] is None),
            r ==> exists|i: int| 0 <= i < old(self).recipients().len() && old(self).recipients()[i] == sid
                && old(self).answers()[i] is None
                && #[trigger] final(self).answers() == old(self).answers().update(i, Some(data@)),
            !r ==> final(self).answers() == old(self).answers(),
    {
        if ack_id != self.ack_id {
            return false;
        }
        let mut i: usize = 0;
        while i < self.slots.len()
            invariant
                i <= self.slots@.len(),
                self.slots@ == old(self).slots@,
                self.ack_id == old(self).ack_id,
                ack_id == old(self).ack_id,
                self.timeout_ms == old(self).timeout_ms,
                forall|j: int| 0 <= j < i ==> !(#[trigger] self.slots@[j].0 == sid && self.slots@[j].1 is None),
            decreases self.slots@.len() - i,
        {
            if self.slots[i].0 == sid && self.slots[i].1.is_none() {
                let ghost before = *self;
                let ghost dv = data@;
                self.slots.set(i, (sid, Some(data)));
                proof {
                    assert(before.recipients()[i as int] == sid);
                    assert(before.answers()[i as int] is None);
                    assert(old(self).slots@[i as int].1 is None);
                    assert(old(self).recipients()[i as int] == sid);
                    assert(old(self).answers()[i as int] is None);
                    assert(self.recipients() =~= before.recipients());
                    assert(self.answers() =~= before.answers().update(i as int, Some(dv)));
                    assert(ack_id == old(self).spec_ack_id());
                    assert(0 <= i < old(self).recipients().len());
                    assert(exists|j: int| 0 <= j < old(self).recipients().len()
                        && old(self).recipients()[j] == sid && #[trigger] old(self).answers()[j] is None);
                }
                return true;
            }
            i = i + 1;
        }
        proof {
            assert forall|j: int| 0 <= j < old(self).recipients().len() && old(self).recipients()[j] == sid implies !(#[trigger] old(self).answers()[j] is None) by {
                assert(self.slots@[j].0 == sid);
            }
        }
        false
    }

    /// The timeout has run out: one result per recipient, in order, the
    /// answer where one came and `Timeout` where none did.
    pub fn finish(self) -> (r: Vec<(Sid, Result<Vec<char>, AckError>)>)
        ensures
            r@.len() == self.recipients().len(),
            forall|i: int| 0 <= i < r@.len() ==> (#[trigger] r@[i]).0 == self.recipients()[i] && match self.answers()[i] {
                Some(a) => (r@[i].1 matches Ok(v) && v@ == a),
                None => r@[i].1 == Err::<Vec<char>, AckError>(AckError::Timeout),
            },
    {
        let ghost rec = self.recipients();
        let ghost ans = self.answers();
        let mut slots = self.slots;
        let mut out: Vec<(Sid, Result<Vec<char>, AckError>)> = Vec::new();
        let n = slots.len();
        let mut i: usize = 0;
        while i < n
            invariant
                n == rec.len(),
                i <= n,
                slots@.len() == n - i,
                forall|j: int| 0 <= j < n - i ==> #[trigger] slots@[j].0 == rec[i + j] && match slots@[j].1 {
                    Some(v) => ans[i + j] == Some(v@),
                    None => ans[i + j] is None,
                },
                out@.len() == i,
                forall|j: int| 0 <= j < i ==> (#[trigger] out@[j]).0 == rec[j] && match ans[j] {
                    Some(a) => (out@[j].1 matches Ok(v) && v@ == a),
                    None => out@[j].1 == Err::<Vec<char>, AckError>(AckError::Timeout),
                },
            decreases n - i,
        {
            let (sid, answer) = slots.remove(0);
            match answer {
                Some(v) => out.push((sid, Ok(v))),
                None => out.push((sid, Err(AckError::Timeout))),
            }
            i = i + 1;
        }
        out
    }
}

/// Emit an event that asks for acknowledgements: it is queued on every
/// selected socket, and a collector holds one slot per selected socket.
pub fn broadcast_with_ack(engine: &mut Engine, ns: &Namespace, opts: &BroadcastOptions, nsp: &String, event: &String, data: &Vec<char>, attachments: &Vec<Vec<u8>>, ack_id: u64, default_timeout_ms: u64) -> (r: (AckCollector, Vec<(Sid, SendError)>))
    requires
        old(engine).wf(),
        ns.wf(),
        forall|i: int| 0 <= i < ns.socket_seq().len() ==> #[trigger] ns.socket_seq()[i] < old(engine).sessions().len(),
    ensures
        final(engine).wf(),
        r.0.recipients() == ns.resolve(opts),
        r.0.answers().len() == ns.resolve(opts).len(),
        forall|i: int| 0 <= i < r.0.answers().len() ==> #[trigger] r.0.answers()[i] is None,
        r.0.spec_ack_id() == ack_id,
        r.0.spec_timeout() == effective_timeout(opts, default_timeout_ms),
        r.1@ == failures(old(engine), ns.resolve(opts), attachments@.len() + 1),
        final(engine).sessions().len() == old(engine).sessions().len(),
        forall|s: Sid| s < old(engine).sessions().len() ==> {
            let before = old(engine).sessions()[s as int];
            let after = #[trigger] final(engine).sessions()[s as int];
            if ns.resolve(opts).contains(s) && accepts(old(engine), s, attachments@.len() + 1) {
                after.queued() == before.queued() + event_packets(
                    event_text(nsp@, event@, data@, Some(ack_id), attachments@.len() as nat),
                    attachment_views(attachments@),
                )
            } else {
                after == before
            }
        },
{
    let text = encode_event(nsp, event, data, Some(ack_id), attachments.len() as u64);
    let errors = broadcast(engine, ns, opts, &text, attachments);
    let targets = ns.sockets(opts);
    let timeout = match opts.timeout_ms {
        Some(t) => t,
        None => default_timeout_ms,
    };
    (AckCollector::new(ack_id, timeout, &targets), errors)
}

/// The number of results an ack collector yields is the number of sockets
/// the selection holds, and every one of them is resolved once the timeout
/// has run out.
pub proof fn lemma_ack_results_cover_selection(ns: &Namespace, opts: &BroadcastOptions, c: &AckCollector, results: Seq<(Sid, Result<Vec<char>, AckError>)>)
    requires
        ns.wf(),
        c.recipients() == ns.resolve(opts),
        c.answers().len() == c.recipients().len(),
        results.len() == c.recipients().len(),
        forall|i: int| 0 <= i < results.len() ==> (#[trigger] results[i]).0 == c.recipients()[i],
    ensures
        results.len() == ns.resolve(opts).to_set().len(),
        forall|s: Sid| ns.resolve(opts).contains(s) <==> exists|i: int| 0 <= i < results.len() && (#[trigger] results[i]).0 == s,
{
    crate::adapter::lemma_resolve_no_duplicates(ns, opts);
    ns.resolve(opts).unique_seq_to_set();
    assert forall|s: Sid| ns.resolve(opts).contains(s) implies exists|i: int| 0 <= i < results.len() && (#[trigger] results[i]).0 == s by {
        let k = choose|k: int| 0 <= k < ns.resolve(opts).len() && ns.resolve(opts)[k] == s;
        assert(results[k].0 == s);
    }
}

} // verus!
