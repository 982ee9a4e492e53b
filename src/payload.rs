//! The polling payload: a batch of packets in one HTTP body.

use std::collections::VecDeque;
use vstd::prelude::*;

use crate::packet::{
    base64_of,
    decode_packet, digit_char, reads_back, packet_faithful, is_base64_char, lemma_packet_round_trip, packet_text, parse_packet, push_chars, push_decimal, push_packet_text,
    decimal, Packet, PacketView, ParseError,
};

verus! {

/// The Engine.IO protocol revision of a client.
#[derive(PartialEq, Eq, Structural, Debug, Clone, Copy)]
pub enum ProtocolVersion {
    V3,
    V4,
}

/// The record separator between packets of a V4 payload.
pub const SEPARATOR: char = '\u{1e}';

/// The views of a sequence of packets.
pub open spec fn views(s: Seq<Packet>) -> Seq<PacketView> {
    s.map_values(|p: Packet| p@)
}

/// A V3 frame: the character count of `t`, a colon, then `t`.
pub open spec fn frame_v3(t: Seq<char>) -> Seq<char> {
    decimal(t.len()) + seq![':'] + t
}

/// What packet `p` adds to a payload after `before` packets.
pub open spec fn record(p: PacketView, v: ProtocolVersion, before: nat) -> Seq<char> {
    match v {
        ProtocolVersion::V4 => if before == 0 {
            packet_text(p)
        } else {
            seq![SEPARATOR] + packet_text(p)
        },
        ProtocolVersion::V3 => frame_v3(packet_text(p)),
    }
}

/// The payload text of packets `ps`.
pub open spec fn payload(ps: Seq<PacketView>, v: ProtocolVersion) -> Seq<char>
    decreases ps.len(),
{
    if ps.len() == 0 {
        seq![]
    } else {
        payload(ps.drop_last(), v) + record(ps.last(), v, (ps.len() - 1) as nat)
    }
}

/// The first character that takes two bytes in UTF-8.
pub const TWO_BYTES_FROM: char = '\u{80}';

/// The first character that takes three bytes in UTF-8.
pub const THREE_BYTES_FROM: char = '\u{800}';

/// The first character that takes four bytes in UTF-8.
pub const FOUR_BYTES_FROM: char = '\u{10000}';

/// How many bytes character `c` takes in UTF-8.
pub open spec fn char_bytes(c: char) -> nat {
    if c < TWO_BYTES_FROM {
        1
    } else if c < THREE_BYTES_FROM {
        2
    } else if c < FOUR_BYTES_FROM {
        3
    } else {
        4
    }
}

/// How many bytes `s` takes in UTF-8.
pub open spec fn utf8_len(s: Seq<char>) -> nat
    decreases s.len(),
{
    if s.len() == 0 {
        0
    } else {
        utf8_len(s.drop_last()) + char_bytes(s.last())
    }
}

/// The UTF-8 length of a concatenation is the sum of the lengths.
pub proof fn lemma_utf8_len_concat(a: Seq<char>, b: Seq<char>)
    ensures
        utf8_len(a + b) == utf8_len(a) + utf8_len(b),
    decreases b.len(),
{
    if b.len() == 0 {
        assert(a + b == a);
    } else {
        lemma_utf8_len_concat(a, b.drop_last());
        assert((a + b).drop_last() == a + b.drop_last());
        assert((a + b).last() == b.last());
    }
}

/// How many bytes the characters of `v` take in UTF-8.
pub fn utf8_len_of(v: &Vec<char>) -> (r: u128)
    ensures
        r == utf8_len(v@),
{
    let mut n: u128 = 0;
    let mut i: usize = 0;
    while i < v.len()
        invariant
            i <= v@.len(),
            n == utf8_len(v@.take(i as int)),
            n <= 4 * i,
        decreases v@.len() - i,
    {
        let c = v[i];
        let b: u128 = if c < TWO_BYTES_FROM {
            1
        } else if c < THREE_BYTES_FROM {
            2
        } else if c < FOUR_BYTES_FROM {
            3
        } else {
            4
        };
        assert(v@.take(i + 1).drop_last() == v@.take(i as int));
        assert(v@.take(i + 1).last() == v@[i as int]);
        n = n + b;
        i = i + 1;
    }
    assert(v@.take(v@.len() as int) == v@);
    n
}

/// How many packets of `q` a poll takes: at least one, then as many as keep
/// the payload within `max` bytes.
pub open spec fn is_batch_len(q: Seq<PacketView>, v: ProtocolVersion, max: nat, k: nat) -> bool {
    &&& 1 <= k <= q.len()
    &&& (k == 1 || utf8_len(payload(q.take(k as int), v)) <= max)
    &&& (k == q.len() || utf8_len(payload(q.take((k + 1) as int), v)) > max)
}

proof fn lemma_payload_take_succ(q: Seq<PacketView>, v: ProtocolVersion, k: int)
    requires
        0 <= k < q.len(),
    ensures
        payload(q.take(k + 1), v) == payload(q.take(k), v) + record(q[k], v, k as nat),
{
    assert(q.take(k + 1).drop_last() == q.take(k));
}

/// Append the record of `p` after `before` packets to `out`.
fn push_record(out: &mut Vec<char>, p: &Packet, v: ProtocolVersion, before: usize)
    ensures
        final(out)@ == old(out)@ + record(p@, v, before as nat),
        packet_faithful(p@),
{
    match v {
        ProtocolVersion::V4 => {
            if before > 0 {
                out.push(SEPARATOR);
            }
            push_packet_text(out, p);
        },
        ProtocolVersion::V3 => {
            let mut t: Vec<char> = Vec::new();
            push_packet_text(&mut t, p);
            push_decimal(out, t.len() as u64);
            out.push(':');
            push_chars(out, &t);
        },
    }
    assert(final(out)@ == old(out)@ + record(p@, v, before as nat));
}

/// Take a batch of packets from the front of `outbox` and frame them as one
/// payload. The first packet is always taken; each further one only while the
/// payload stays within `max_payload` bytes. Packets not taken stay
/// queued, in order.
pub fn encode_batch(outbox: &mut VecDeque<Packet>, v: ProtocolVersion, max_payload: u64) -> (r: (
    Vec<char>,
    usize,
))
    requires
        old(outbox)@.len() > 0,
    ensures
        is_batch_len(views(old(outbox)@), v, max_payload as nat, r.1 as nat),
        final(outbox)@ == old(outbox)@.skip(r.1 as int),
        r.0@ == payload(views(old(outbox)@).take(r.1 as int), v),
        forall|i: int| 0 <= i < r.1 ==> packet_faithful(#[trigger] views(old(outbox)@)[i]),
{
    let ghost q = views(old(outbox)@);
    let ghost q0 = old(outbox)@;
    let total = outbox.len();
    let mut out: Vec<char> = Vec::new();
    let first = outbox.pop_front().unwrap();
    push_record(&mut out, &first, v, 0);
    proof {
        lemma_payload_take_succ(q, v, 0);
        assert(q[0] == first@);
        assert(q.take(0) == Seq::<PacketView>::empty());
        assert(q0.skip(1) == outbox@);
    }
    let mut k: usize = 1;
    let mut out_bytes = utf8_len_of(&out);
    proof {
        lemma_utf8_len_bound(out@);
    }
    while outbox.len() > 0
        invariant
            out_bytes == utf8_len(out@),
            out_bytes <= 4 * out@.len(),
            q == views(q0),
            1 <= k <= q0.len(),
            outbox@ == q0.skip(k as int),
            out@ == payload(q.take(k as int), v),
            k == 1 || utf8_len(out@) <= max_payload,
            outbox@.len() == q0.len() - k,
            q.len() == q0.len(),
            total == q0.len(),
            forall|i: int| 0 <= i < k ==> packet_faithful(#[trigger] q[i]),
        ensures
            forall|i: int| 0 <= i < k ==> packet_faithful(#[trigger] q[i]),
            is_batch_len(q, v, max_payload as nat, k as nat),
            outbox@ == q0.skip(k as int),
            out@ == payload(q.take(k as int), v),
        decreases outbox@.len(),
    {
        let mut rec: Vec<char> = Vec::new();
        push_record(&mut rec, &outbox[0], v, k);
        proof {
            assert(outbox@[0] == q0[k as int]);
            lemma_payload_take_succ(q, v, k as int);
        }
        let rec_bytes = utf8_len_of(&rec);
        let out_len = out.len();
        let rec_len = rec.len();
        proof {
            lemma_utf8_len_concat(out@, rec@);
            lemma_utf8_len_bound(rec@);
        }
        assert(out_bytes + rec_bytes <= 4 * out_len + 4 * rec_len);
        if out_bytes + rec_bytes > (max_payload as u128) {
            break;
        }
        push_chars(&mut out, &rec);
        out_bytes = out_bytes + rec_bytes;
        let _taken = outbox.pop_front();
        proof {
            assert(q0.skip(k + 1) == q0.skip(k as int).drop_first());
        }
        k = k + 1;
    }
    (out, k)
}

proof fn lemma_utf8_len_bound(s: Seq<char>)
    ensures
        utf8_len(s) <= 4 * s.len(),
    decreases s.len(),
{
    if s.len() > 0 {
        lemma_utf8_len_bound(s.drop_last());
    }
}

/// The records of a V4 payload: the runs between separators.
pub open spec fn split_records(s: Seq<char>) -> Seq<Seq<char>>
    decreases s.len(),
{
    if s.len() == 0 {
        seq![seq![]]
    } else {
        let r = split_records(s.drop_last());
        if s.last() == SEPARATOR {
            r.push(seq![])
        } else {
            r.update(r.len() - 1, r.last().push(s.last()))
        }
    }
}

/// Whether `c` is a decimal digit.
pub open spec fn is_digit(c: char) -> bool {
    '0' <= c <= '9'
}

/// How many decimal digits `s` starts with.
pub open spec fn leading_digits(s: Seq<char>) -> nat
    decreases s.len(),
{
    if s.len() > 0 && is_digit(s[0]) {
        1 + leading_digits(s.drop_first())
    } else {
        0
    }
}

/// The number that the digits `s` write in decimal.
pub open spec fn digits_value(s: Seq<char>) -> nat
    decreases s.len(),
{
    if s.len() == 0 {
        0
    } else {
        digits_value(s.drop_last()) * 10 + ((s.last() as nat) - 48) as nat
    }
}

/// The frames of a V3 payload, and whether the whole text was well framed.
pub open spec fn split_frames(s: Seq<char>) -> (Seq<Seq<char>>, bool)
    decreases s.len(),
{
    if s.len() == 0 {
        (seq![], true)
    } else {
        let k = leading_digits(s);
        if k == 0 || k >= s.len() || s[k as int] != ':' {
            (seq![], false)
        } else {
            let end = k + 1 + digits_value(s.take(k as int));
            if end > s.len() {
                (seq![], false)
            } else {
                let r = split_frames(s.skip(end as int));
                (seq![s.subrange((k + 1) as int, end as int)] + r.0, r.1)
            }
        }
    }
}

/// The records of payload `s`, and whether it was well framed.
pub open spec fn payload_records(s: Seq<char>, v: ProtocolVersion) -> (Seq<Seq<char>>, bool) {
    match v {
        ProtocolVersion::V4 => if s.len() == 0 {
            (seq![], true)
        } else {
            (split_records(s), true)
        },
        ProtocolVersion::V3 => split_frames(s),
    }
}

/// The packets of `recs` up to the first that does not parse, and its error.
pub open spec fn parse_records(recs: Seq<Seq<char>>) -> (Seq<PacketView>, Option<ParseError>)
    decreases recs.len(),
{
    if recs.len() == 0 {
        (seq![], None)
    } else {
        match parse_packet(recs[0]) {
            Ok(p) => {
                let r = parse_records(recs.drop_first());
                (seq![p] + r.0, r.1)
            },
            Err(e) => (seq![], Some(e)),
        }
    }
}

/// What a client's payload `s` holds: the packets before the first fault,
/// and the fault.
pub open spec fn decode_spec(s: Seq<char>, v: ProtocolVersion, max: nat) -> (
    Seq<PacketView>,
    Option<ParseError>,
) {
    if utf8_len(s) > max {
        (seq![], Some(ParseError::PayloadTooLarge))
    } else {
        let (recs, framed) = payload_records(s, v);
        let (ps, e) = parse_records(recs);
        if e is None && !framed {
            (ps, Some(ParseError::InvalidFrame))
        } else {
            (ps, e)
        }
    }
}

/// The packets that a payload held, and the fault that ended it, if any.
pub struct Decoded {
    pub packets: Vec<Packet>,
    pub error: Option<ParseError>,
}

/// The views of a sequence of records.
pub open spec fn record_views(s: Seq<Vec<char>>) -> Seq<Seq<char>> {
    s.map_values(|r: Vec<char>| r@)
}

/// Split a V4 payload at its separators.
fn split_v4(body: &Vec<char>) -> (r: Vec<Vec<char>>)
    ensures
        record_views(r@) == split_records(body@),
{
    let mut recs: Vec<Vec<char>> = Vec::new();
    let mut cur: Vec<char> = Vec::new();
    let mut i: usize = 0;
    assert(body@.take(0) == Seq::<char>::empty());
    assert(record_views(recs@).push(cur@) == split_records(body@.take(0)));
    while i < body.len()
        invariant
            i <= body@.len(),
            record_views(recs@).push(cur@) == split_records(body@.take(i as int)),
        decreases body@.len() - i,
    {
        let c = body[i];
        let ghost prev = split_records(body@.take(i as int));
        assert(body@.take(i + 1).drop_last() == body@.take(i as int));
        assert(body@.take(i + 1).last() == c);
        if c == SEPARATOR {
            recs.push(cur);
            cur = Vec::new();
            assert(record_views(recs@) == prev);
            assert(record_views(recs@).push(cur@) == prev.push(seq![]));
        } else {
            let ghost before = record_views(recs@);
            cur.push(c);
            assert(record_views(recs@).push(cur@) =~= prev.update(
                prev.len() - 1,
                prev.last().push(c),
            ));
        }
        i = i + 1;
    }
    assert(body@.take(body@.len() as int) == body@);
    recs.push(cur);
    recs
}

proof fn lemma_leading_digits_step(s: Seq<char>, j: int)
    requires
        0 <= j < s.len(),
        is_digit(s[j]),
    ensures
        leading_digits(s.skip(j)) == 1 + leading_digits(s.skip(j + 1)),
{
    assert(s.skip(j).drop_first() == s.skip(j + 1));
}

proof fn lemma_digits_value_step(s: Seq<char>, a: int, j: int)
    requires
        0 <= a <= j < s.len(),
    ensures
        digits_value(s.subrange(a, j + 1)) == digits_value(s.subrange(a, j)) * 10 + ((s[j] as nat)
            - 48) as nat,
{
    assert(s.subrange(a, j + 1).drop_last() == s.subrange(a, j));
}

/// Split a V3 payload into its frames.
fn split_v3(body: &Vec<char>) -> (r: (Vec<Vec<char>>, bool))
    ensures
        (record_views(r.0@), r.1) == split_frames(body@),
{
    let n = body.len();
    let mut recs: Vec<Vec<char>> = Vec::new();
    let mut pos: usize = 0;
    assert(body@.skip(0) == body@);
    while pos < n
        invariant
            n == body@.len(),
            pos <= n,
            split_frames(body@) == (record_views(recs@) + split_frames(body@.skip(pos as int)).0,
            split_frames(body@.skip(pos as int)).1),
        decreases n - pos,
    {
        let ghost s = body@.skip(pos as int);
        let mut j: usize = pos;
        let mut val: u128 = 0;
        let mut big = false;
        assert(body@.subrange(pos as int, pos as int) == Seq::<char>::empty());
        while j < n && '0' <= body[j] && body[j] <= '9'
            invariant
                n == body@.len(),
                pos <= j <= n,
                s == body@.skip(pos as int),
                leading_digits(s) == (j - pos) + leading_digits(body@.skip(j as int)),
                !big ==> val == digits_value(body@.subrange(pos as int, j as int)) && val <= n,
                big ==> digits_value(body@.subrange(pos as int, j as int)) > n,
            decreases n - j,
        {
            proof {
                lemma_leading_digits_step(body@, j as int);
                lemma_digits_value_step(body@, pos as int, j as int);
            }
            let d = (body[j] as u32 - 48) as u128;
            if !big {
                val = val * 10 + d;
                if val > n as u128 {
                    big = true;
                }
            } else {
                proof {
                    let pv = digits_value(body@.subrange(pos as int, j as int));
                    assert(pv * 10 >= pv) by (nonlinear_arith);
                }
            }
            j = j + 1;
        }
        proof {
            if j < n {
                assert(body@.skip(j as int)[0] == body@[j as int]);
            }
        }
        let k = j - pos;
        assert(leading_digits(s) == k);
        assert(s.take(k as int) == body@.subrange(pos as int, j as int));
        if k == 0 || j >= n || body[j] != ':' {
            assert(split_frames(s).1 == false);
            assert(split_frames(s).0 == Seq::<Seq<char>>::empty());
            assert(record_views(recs@) + split_frames(s).0 == record_views(recs@));
            return (recs, false);
        }
        assert(s[k as int] == body@[j as int]);
        if big || val > (n - j - 1) as u128 {
            return (recs, false);
        }
        let end = j + 1 + val as usize;
        let mut rec: Vec<char> = Vec::new();
        let mut m: usize = j + 1;
        while m < end
            invariant
                j + 1 <= m <= end <= n,
                n == body@.len(),
                rec@ == body@.subrange(j + 1, m as int),
            decreases end - m,
        {
            rec.push(body[m]);
            assert(body@.subrange(j + 1, m + 1) == body@.subrange(j + 1, m as int).push(
                body@[m as int],
            ));
            m = m + 1;
        }
        let ghost e = (k + 1 + val) as int;
        assert(s.subrange(k + 1, e) == rec@);
        assert(s.skip(e) == body@.skip(end as int));
        let ghost old_recs = record_views(recs@);
        recs.push(rec);
        assert(record_views(recs@) == old_recs.push(rec@));
        assert(old_recs + (seq![rec@] + split_frames(body@.skip(end as int)).0) == record_views(
            recs@,
        ) + split_frames(body@.skip(end as int)).0);
        pos = end;
    }
    assert(body@.skip(n as int) == Seq::<char>::empty());
    assert(record_views(recs@) + Seq::<Seq<char>>::empty() == record_views(recs@));
    (recs, true)
}

/// Parse each record in turn, stopping at the first that fails.
fn parse_all(recs: &Vec<Vec<char>>) -> (r: (Vec<Packet>, Option<ParseError>))
    ensures
        (views(r.0@), r.1) == parse_records(record_views(recs@)),
{
    let ghost all = record_views(recs@);
    let mut out: Vec<Packet> = Vec::new();
    let mut i: usize = 0;
    assert(all.skip(0) == all);
    assert(views(out@) + parse_records(all.skip(0)).0 == parse_records(all).0);
    while i < recs.len()
        invariant
            i <= recs@.len(),
            all == record_views(recs@),
            parse_records(all) == (views(out@) + parse_records(all.skip(i as int)).0,
            parse_records(all.skip(i as int)).1),
        decreases recs@.len() - i,
    {
        let ghost rest = all.skip(i as int);
        assert(rest[0] == recs@[i as int]@);
        assert(rest.drop_first() == all.skip(i + 1));
        match decode_packet(&recs[i]) {
            Ok(p) => {
                let ghost before = views(out@);
                out.push(p);
                assert(views(out@) == before.push(p@));
                assert(before + (seq![p@] + parse_records(all.skip(i + 1)).0) == views(out@)
                    + parse_records(all.skip(i + 1)).0);
            },
            Err(e) => {
                assert(views(out@) + Seq::<PacketView>::empty() == views(out@));
                return (out, Some(e));
            },
        }
        i = i + 1;
    }
    assert(all.skip(recs@.len() as int) == Seq::<Seq<char>>::empty());
    assert(views(out@) + Seq::<PacketView>::empty() == views(out@));
    (out, None)
}

/// Read a client's payload: the packets before the first fault, and the
/// fault. A body longer than `max_payload` bytes is refused whole.
pub fn decode_payload(body: &Vec<char>, v: ProtocolVersion, max_payload: u64) -> (r: Decoded)
    ensures
        (views(r.packets@), r.error) == decode_spec(body@, v, max_payload as nat),
{
    if utf8_len_of(body) > (max_payload as u128) {
        return Decoded { packets: Vec::new(), error: Some(ParseError::PayloadTooLarge) };
    }
    let (recs, framed) = match v {
        ProtocolVersion::V4 => if body.len() == 0 {
            (Vec::new(), true)
        } else {
            (split_v4(body), true)
        },
        ProtocolVersion::V3 => split_v3(body),
    };
    assert((record_views(recs@), framed) == payload_records(body@, v));
    let (packets, error) = parse_all(&recs);
    if error.is_none() && !framed {
        Decoded { packets, error: Some(ParseError::InvalidFrame) }
    } else {
        Decoded { packets, error }
    }
}

/// The packet texts of `ps`.
pub open spec fn texts(ps: Seq<PacketView>) -> Seq<Seq<char>> {
    ps.map_values(|p: PacketView| packet_text(p))
}

/// Packets that a payload of version `v` carries faithfully: packets that
/// read back as themselves, and under V4 no message that holds the
/// separator.
pub open spec fn round_trips(ps: Seq<PacketView>, v: ProtocolVersion) -> bool {
    forall|i: int|
        0 <= i < ps.len() ==> reads_back(#[trigger] ps[i]) && (v == ProtocolVersion::V4
            ==> !(ps[i] matches PacketView::Message(m) && m.contains(SEPARATOR)))
}

proof fn lemma_parse_texts(ps: Seq<PacketView>)
    requires
        forall|i: int| 0 <= i < ps.len() ==> reads_back(#[trigger] ps[i]),
    ensures
        parse_records(texts(ps)) == (ps, None::<ParseError>),
    decreases ps.len(),
{
    if ps.len() > 0 {
        lemma_packet_round_trip(ps[0]);
        assert(texts(ps).drop_first() == texts(ps.drop_first()));
        lemma_parse_texts(ps.drop_first());
        assert(seq![ps[0]] + ps.drop_first() == ps);
    } else {
        assert(texts(ps) == Seq::<Seq<char>>::empty());
    }
}

proof fn lemma_split_append(a: Seq<char>, t: Seq<char>)
    requires
        !t.contains(SEPARATOR),
    ensures
        split_records(a + t) == split_records(a).update(
            split_records(a).len() - 1,
            split_records(a).last() + t,
        ),
        split_records(a).len() > 0,
    decreases t.len(),
{
    lemma_split_nonempty(a);
    if t.len() == 0 {
        assert(a + t == a);
        assert(split_records(a).last() + t == split_records(a).last());
        assert(split_records(a).update(split_records(a).len() - 1, split_records(a).last())
            == split_records(a));
    } else {
        let t0 = t.drop_last();
        assert(!t0.contains(SEPARATOR)) by {
            if t0.contains(SEPARATOR) {
                let k = choose|k: int| 0 <= k < t0.len() && t0[k] == SEPARATOR;
                assert(t[k] == SEPARATOR);
            }
        }
        assert(t.last() != SEPARATOR) by {
            assert(t[t.len() - 1] == t.last());
        }
        lemma_split_append(a, t0);
        assert((a + t).drop_last() == a + t0);
        assert((a + t).last() == t.last());
        lemma_split_nonempty(a + t0);
        let sa = split_records(a);
        let r = split_records(a + t0);
        assert(r.len() == sa.len());
        assert(r.last() == sa.last() + t0);
        assert((sa.last() + t0).push(t.last()) =~= sa.last() + t);
        assert(split_records(a + t) =~= split_records(a).update(
            split_records(a).len() - 1,
            split_records(a).last() + t,
        ));
    }
}

proof fn lemma_split_nonempty(a: Seq<char>)
    ensures
        split_records(a).len() > 0,
    decreases a.len(),
{
    if a.len() > 0 {
        lemma_split_nonempty(a.drop_last());
    }
}

proof fn lemma_texts_no_separator(ps: Seq<PacketView>, i: int)
    requires
        round_trips(ps, ProtocolVersion::V4),
        0 <= i < ps.len(),
    ensures
        !packet_text(ps[i]).contains(SEPARATOR),
{
    let p = ps[i];
    let t = packet_text(p);
    assert(reads_back(p));
    if t.contains(SEPARATOR) {
        let k = choose|k: int| 0 <= k < t.len() && t[k] == SEPARATOR;
        match p {
            PacketView::Message(m) => {
                assert(t[k] == m[k - 1]);
                assert(m.contains(SEPARATOR));
            },
            PacketView::Binary(b) => {
                assert(t[k] == base64_of(b)[k - 1]);
                assert(is_base64_char(base64_of(b)[k - 1]));
            },
            _ => {
                assert(t.len() <= 6);
            },
        }
    }
}

proof fn lemma_split_payload_v4(ps: Seq<PacketView>)
    requires
        ps.len() > 0,
        round_trips(ps, ProtocolVersion::V4),
    ensures
        split_records(payload(ps, ProtocolVersion::V4)) == texts(ps),
    decreases ps.len(),
{
    let v = ProtocolVersion::V4;
    let t = packet_text(ps.last());
    lemma_texts_no_separator(ps, ps.len() - 1);
    if ps.len() == 1 {
        assert(ps.drop_last() == Seq::<PacketView>::empty());
        assert(payload(ps.drop_last(), v) == Seq::<char>::empty());
        assert(record(ps.last(), v, 0) == t);
        assert(payload(ps, v) == Seq::<char>::empty() + t);
        lemma_split_append(Seq::<char>::empty(), t);
        assert(split_records(Seq::<char>::empty()) == seq![Seq::<char>::empty()]);
        assert(Seq::<char>::empty() + t == t);
        assert(texts(ps) =~= seq![t]);
    } else {
        let d = ps.drop_last();
        assert(round_trips(d, v)) by {
            assert forall|i: int| 0 <= i < d.len() implies reads_back(#[trigger] d[i]) && (v
                == ProtocolVersion::V4 ==> !(d[i] matches PacketView::Message(m) && m.contains(SEPARATOR))) by {
                assert(d[i] == ps[i]);
            }
        }
        lemma_split_payload_v4(d);
        let a = payload(d, v);
        assert(payload(ps, v) == a + (seq![SEPARATOR] + t));
        assert(a + (seq![SEPARATOR] + t) == (a + seq![SEPARATOR]) + t);
        lemma_split_append(a + seq![SEPARATOR], t);
        assert((a + seq![SEPARATOR]).drop_last() == a);
        assert(split_records(a + seq![SEPARATOR]) == split_records(a).push(seq![]));
        assert(Seq::<char>::empty() + t == t);
        assert(texts(ps) =~= texts(d).push(t));
        assert(split_records(payload(ps, v)) =~= texts(d).push(t));
    }
}

pub(crate) proof fn lemma_decimal_digits(n: nat)
    ensures
        decimal(n).len() > 0,
        forall|i: int| 0 <= i < decimal(n).len() ==> is_digit(#[trigger] decimal(n)[i]),
        digits_value(decimal(n)) == n,
    decreases n,
{
    let c = digit_char(n % 10);
    assert(c as nat == n % 10 + 48);
    assert(decimal(n).last() == c);
    if n >= 10 {
        lemma_decimal_digits(n / 10);
        assert(decimal(n).drop_last() == decimal(n / 10));
        assert(digits_value(decimal(n)) == digits_value(decimal(n / 10)) * 10 + ((c as nat) - 48) as nat);
        assert(n == (n / 10) * 10 + n % 10) by (nonlinear_arith);
    } else {
        assert(decimal(n).drop_last() == Seq::<char>::empty());
        assert(digits_value(decimal(n)) == digits_value(Seq::<char>::empty()) * 10 + ((c as nat) - 48) as nat);
    }
}

pub(crate) proof fn lemma_leading_digits_append(x: Seq<char>, y: Seq<char>)
    requires
        forall|i: int| 0 <= i < x.len() ==> is_digit(#[trigger] x[i]),
    ensures
        leading_digits(x + y) == x.len() + leading_digits(y),
    decreases x.len(),
{
    if x.len() == 0 {
        assert(x + y == y);
    } else {
        assert((x + y)[0] == x[0]);
        assert((x + y).drop_first() == x.drop_first() + y);
        lemma_leading_digits_append(x.drop_first(), y);
    }
}

proof fn lemma_split_frame(t: Seq<char>, rest: Seq<char>)
    ensures
        split_frames(frame_v3(t) + rest) == (seq![t] + split_frames(rest).0, split_frames(rest).1),
{
    let d = decimal(t.len());
    let s = frame_v3(t) + rest;
    lemma_decimal_digits(t.len());
    assert(s == d + (seq![':'] + t + rest));
    lemma_leading_digits_append(d, seq![':'] + t + rest);
    assert((seq![':'] + t + rest)[0] == ':');
    let k = d.len();
    assert(leading_digits(seq![':'] + t + rest) == 0);
    assert(leading_digits(s) == k);
    assert(s[k as int] == ':');
    assert(s.take(k as int) == d);
    let end = k + 1 + t.len();
    assert(s.subrange((k + 1) as int, end as int) == t);
    assert(s.skip(end as int) == rest);
}

proof fn lemma_payload_v3_front(ps: Seq<PacketView>)
    requires
        ps.len() > 0,
    ensures
        payload(ps, ProtocolVersion::V3) == frame_v3(packet_text(ps[0])) + payload(
            ps.drop_first(),
            ProtocolVersion::V3,
        ),
    decreases ps.len(),
{
    let v = ProtocolVersion::V3;
    if ps.len() == 1 {
        assert(ps.drop_last() == Seq::<PacketView>::empty());
        assert(ps.drop_first() == Seq::<PacketView>::empty());
        assert(payload(ps.drop_last(), v) == Seq::<char>::empty());
        assert(ps.last() == ps[0]);
        assert(payload(ps.drop_first(), v) == Seq::<char>::empty());
        assert(payload(ps, v) == Seq::<char>::empty() + frame_v3(packet_text(ps[0])));
        assert(Seq::<char>::empty() + frame_v3(packet_text(ps[0])) == frame_v3(packet_text(ps[0])));
        assert(frame_v3(packet_text(ps[0])) + Seq::<char>::empty() == frame_v3(packet_text(ps[0])));
    } else {
        let d = ps.drop_last();
        lemma_payload_v3_front(d);
        assert(d.drop_first() == ps.drop_first().drop_last());
        assert(ps.drop_first().last() == ps.last());
        assert(d[0] == ps[0]);
        assert(payload(ps.drop_first(), v) == payload(d.drop_first(), v) + record(ps.last(), v, (ps.len() - 2) as nat));
    }
}

proof fn lemma_split_payload_v3(ps: Seq<PacketView>)
    ensures
        split_frames(payload(ps, ProtocolVersion::V3)) == (texts(ps), true),
    decreases ps.len(),
{
    let v = ProtocolVersion::V3;
    if ps.len() == 0 {
        assert(texts(ps) == Seq::<Seq<char>>::empty());
    } else {
        lemma_payload_v3_front(ps);
        lemma_split_payload_v3(ps.drop_first());
        lemma_split_frame(packet_text(ps[0]), payload(ps.drop_first(), v));
        assert(texts(ps) =~= seq![packet_text(ps[0])] + texts(ps.drop_first()));
    }
}

proof fn lemma_payload_nonempty(ps: Seq<PacketView>, v: ProtocolVersion)
    requires
        ps.len() > 0,
    ensures
        payload(ps, v).len() > 0,
{
    assert(packet_text(ps.last()).len() > 0);
}

/// Reading back a payload framed from text packets gives the same packets and
/// no fault, for both protocol versions, when it fits the size limit.
pub proof fn lemma_payload_round_trip(ps: Seq<PacketView>, v: ProtocolVersion, max: nat)
    requires
        round_trips(ps, v),
        utf8_len(payload(ps, v)) <= max,
    ensures
        decode_spec(payload(ps, v), v, max) == (ps, None::<ParseError>),
{
    lemma_parse_texts(ps);
    match v {
        ProtocolVersion::V4 => {
            if ps.len() == 0 {
                assert(texts(ps) == Seq::<Seq<char>>::empty());
            } else {
                lemma_payload_nonempty(ps, v);
                lemma_split_payload_v4(ps);
            }
        },
        ProtocolVersion::V3 => {
            lemma_split_payload_v3(ps);
        },
    }
}

} // verus!
