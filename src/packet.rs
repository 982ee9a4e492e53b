//! Engine.IO packets and their text form.

use base64::Engine;
use vstd::prelude::*;

use crate::socketio::{json_str, push_json_str};

verus! {

/// The handshake data sent when a session opens.
pub struct OpenPacket {
    pub sid: String,
    pub upgrades: Vec<String>,
    pub ping_interval: u64,
    pub ping_timeout: u64,
    pub max_payload: u64,
}

/// An Engine.IO packet.
pub enum Packet {
    Open(OpenPacket),
    Close,
    Ping,
    Pong,
    /// A ping with payload `probe`, sent while upgrading.
    PingUpgrade,
    /// A pong with payload `probe`, sent while upgrading.
    PongUpgrade,
    Message(String),
    Upgrade,
    Noop,
    Binary(Vec<u8>),
    /// Binary data from a V3 client, which frames it otherwise on polling.
    BinaryV3(Vec<u8>),
}

/// The mathematical form of an open packet.
pub struct OpenView {
    pub sid: Seq<char>,
    pub upgrades: Seq<Seq<char>>,
    pub ping_interval: u64,
    pub ping_timeout: u64,
    pub max_payload: u64,
}

/// The mathematical form of a packet.
pub enum PacketView {
    Open(OpenView),
    Close,
    Ping,
    Pong,
    PingUpgrade,
    PongUpgrade,
    Message(Seq<char>),
    Upgrade,
    Noop,
    Binary(Seq<u8>),
    BinaryV3(Seq<u8>),
}

impl View for OpenPacket {
    type V = OpenView;

    open spec fn view(&self) -> OpenView {
        OpenView {
            sid: self.sid@,
            upgrades: self.upgrades@.map_values(|u: String| u@),
            ping_interval: self.ping_interval,
            ping_timeout: self.ping_timeout,
            max_payload: self.max_payload,
        }
    }
}

impl View for Packet {
    type V = PacketView;

    open spec fn view(&self) -> PacketView {
        match self {
            Packet::Open(o) => PacketView::Open(o@),
            Packet::Close => PacketView::Close,
            Packet::Ping => PacketView::Ping,
            Packet::Pong => PacketView::Pong,
            Packet::PingUpgrade => PacketView::PingUpgrade,
            Packet::PongUpgrade => PacketView::PongUpgrade,
            Packet::Message(m) => PacketView::Message(m@),
            Packet::Upgrade => PacketView::Upgrade,
            Packet::Noop => PacketView::Noop,
            Packet::Binary(b) => PacketView::Binary(b@),
            Packet::BinaryV3(b) => PacketView::BinaryV3(b@),
        }
    }
}

/// Why a packet could not be read.
#[derive(PartialEq, Eq, Structural, Debug, Clone, Copy)]
pub enum ParseError {
    /// The text is empty.
    Empty,
    /// The first character names no packet type that a client may send.
    InvalidPacketType,
    /// A packet type that carries no payload was followed by one.
    UnexpectedPayload,
    /// The base64 text of a binary packet is malformed.
    InvalidBase64,
    /// A length prefix is missing, malformed or longer than the rest.
    InvalidFrame,
    /// The body is longer than the configured maximum.
    PayloadTooLarge,
}

/// The base64 text (standard alphabet, padded) of `b`.
pub uninterp spec fn base64_of(b: Seq<u8>) -> Seq<char>;

/// The bytes that base64 text `s` stands for, if it is well formed.
pub uninterp spec fn base64_bytes(s: Seq<char>) -> Option<Seq<u8>>;

/// Relies on base64's `STANDARD` engine `encode`: the padded base64 text of
/// the bytes, which depends on the bytes alone, uses only the standard
/// alphabet and `=`, and which the engine's `decode` reads back.
#[verifier::external_body]
fn to_base64(b: &Vec<u8>) -> (r: Vec<char>)
    ensures
        r@ == base64_of(b@),
        base64_bytes(r@) == Some(b@),
        forall|i: int| 0 <= i < r@.len() ==> is_base64_char(#[trigger] r@[i]),
{
    base64::engine::general_purpose::STANDARD.encode(b).chars().collect()
}

/// Relies on base64's `STANDARD` engine `decode`: the bytes, or an error on
/// malformed text.
#[verifier::external_body]
fn from_base64(s: &Vec<char>) -> (r: Option<Vec<u8>>)
    ensures
        r matches Some(v) ==> base64_bytes(s@) == Some(v@),
        r is None ==> base64_bytes(s@) is None,
{
    base64::engine::general_purpose::STANDARD.decode(s.iter().collect::<String>()).ok()
}

/// Relies on std's `FromIterator<char>` for `String`: the characters in order.
#[verifier::external_body]
pub(crate) fn string_of(chars: &Vec<char>) -> (r: String)
    ensures
        r@ == chars@,
{
    chars.iter().collect()
}

/// A character of the standard base64 alphabet, or its padding.
pub open spec fn is_base64_char(c: char) -> bool {
    ('A' <= c <= 'Z') || ('a' <= c <= 'z') || ('0' <= c <= '9') || c == '+' || c == '/' || c
        == '='
}

/// The base64 text of `b` reads back as `b` and holds only base64
/// characters.
pub open spec fn base64_faithful(b: Seq<u8>) -> bool {
    &&& base64_bytes(base64_of(b)) == Some(b)
    &&& forall|i: int| 0 <= i < base64_of(b).len() ==> is_base64_char(#[trigger] base64_of(b)[i])
}

/// The binary data of `p`, if any, has faithful base64 text.
pub open spec fn packet_faithful(p: PacketView) -> bool {
    match p {
        PacketView::Binary(b) => base64_faithful(b),
        PacketView::BinaryV3(b) => base64_faithful(b),
        _ => true,
    }
}

/// The decimal digit of `d`.
pub open spec fn digit_char(d: nat) -> char
    recommends
        d < 10,
{
    if d == 0 {
        '0'
    } else if d == 1 {
        '1'
    } else if d == 2 {
        '2'
    } else if d == 3 {
        '3'
    } else if d == 4 {
        '4'
    } else if d == 5 {
        '5'
    } else if d == 6 {
        '6'
    } else if d == 7 {
        '7'
    } else if d == 8 {
        '8'
    } else {
        '9'
    }
}

/// The digit character of `d`.
pub(crate) fn digit_of(d: u64) -> (c: char)
    requires
        d < 10,
    ensures
        c == digit_char(d as nat),
{
    if d == 0 {
        '0'
    } else if d == 1 {
        '1'
    } else if d == 2 {
        '2'
    } else if d == 3 {
        '3'
    } else if d == 4 {
        '4'
    } else if d == 5 {
        '5'
    } else if d == 6 {
        '6'
    } else if d == 7 {
        '7'
    } else if d == 8 {
        '8'
    } else {
        '9'
    }
}

/// The decimal form of `n`, without leading zeros.
pub open spec fn decimal(n: nat) -> Seq<char>
    decreases n,
{
    if n < 10 {
        seq![digit_char(n)]
    } else {
        decimal(n / 10).push(digit_char(n % 10))
    }
}

/// The names of `us` as JSON strings, separated by commas.
pub open spec fn quoted_list(us: Seq<Seq<char>>) -> Seq<char>
    decreases us.len(),
{
    if us.len() == 0 {
        seq![]
    } else if us.len() == 1 {
        json_str(us[0])
    } else {
        quoted_list(us.drop_last()) + seq![','] + json_str(us.last())
    }
}

/// The JSON text of an open packet.
pub open spec fn open_json(o: OpenView) -> Seq<char> {
    "{\"sid\":"@ + json_str(o.sid) + ",\"upgrades\":["@ + quoted_list(o.upgrades)
        + "],\"pingInterval\":"@ + decimal(o.ping_interval as nat) + ",\"pingTimeout\":"@
        + decimal(o.ping_timeout as nat) + ",\"maxPayload\":"@ + decimal(o.max_payload as nat)
        + "}"@
}

/// The text form of a packet: a type character, then the payload.
pub open spec fn packet_text(p: PacketView) -> Seq<char> {
    match p {
        PacketView::Open(o) => seq!['0'] + open_json(o),
        PacketView::Close => seq!['1'],
        PacketView::Ping => seq!['2'],
        PacketView::Pong => seq!['3'],
        PacketView::PingUpgrade => seq!['2', 'p', 'r', 'o', 'b', 'e'],
        PacketView::PongUpgrade => seq!['3', 'p', 'r', 'o', 'b', 'e'],
        PacketView::Message(m) => seq!['4'] + m,
        PacketView::Upgrade => seq!['5'],
        PacketView::Noop => seq!['6'],
        PacketView::Binary(b) => seq!['b'] + base64_of(b),
        PacketView::BinaryV3(b) => seq!['b'] + base64_of(b),
    }
}

/// The packet that a client's text `t` stands for.
pub open spec fn parse_packet(t: Seq<char>) -> Result<PacketView, ParseError> {
    if t.len() == 0 {
        Err(ParseError::Empty)
    } else {
        let rest = t.drop_first();
        let bare = |p: PacketView|
            if rest.len() == 0 {
                Ok(p)
            } else {
                Err(ParseError::UnexpectedPayload)
            };
        if t[0] == '1' {
            bare(PacketView::Close)
        } else if t[0] == '2' {
            if rest == seq!['p', 'r', 'o', 'b', 'e'] {
                Ok(PacketView::PingUpgrade)
            } else {
                bare(PacketView::Ping)
            }
        } else if t[0] == '3' {
            if rest == seq!['p', 'r', 'o', 'b', 'e'] {
                Ok(PacketView::PongUpgrade)
            } else {
                bare(PacketView::Pong)
            }
        } else if t[0] == '4' {
            Ok(PacketView::Message(rest))
        } else if t[0] == '5' {
            bare(PacketView::Upgrade)
        } else if t[0] == '6' {
            bare(PacketView::Noop)
        } else if t[0] == 'b' {
            match base64_bytes(rest) {
                Some(b) => Ok(PacketView::Binary(b)),
                None => Err(ParseError::InvalidBase64),
            }
        } else {
            Err(ParseError::InvalidPacketType)
        }
    }
}

/// A packet whose text reads back as itself: not an open packet, which
/// clients never send, nor `BinaryV3`, whose text is that of `Binary`; and
/// binary data with faithful base64 text.
pub open spec fn reads_back(p: PacketView) -> bool {
    !(p is Open) && !(p is BinaryV3) && packet_faithful(p)
}

/// Append the characters of `s` to `out`.
pub fn push_str(out: &mut Vec<char>, s: &str)
    ensures
        final(out)@ == old(out)@ + s@,
{
    let n = s.unicode_len();
    let mut i: usize = 0;
    while i < n
        invariant
            n == s@.len(),
            i <= n,
            out@ == old(out)@ + s@.take(i as int),
        decreases n - i,
    {
        out.push(s.get_char(i));
        assert(s@.take(i + 1) == s@.take(i as int).push(s@[i as int]));
        i = i + 1;
    }
    assert(s@.take(n as int) == s@);
}

/// Append the characters of `s` to `out`.
pub fn push_chars(out: &mut Vec<char>, s: &Vec<char>)
    ensures
        final(out)@ == old(out)@ + s@,
{
    let mut i: usize = 0;
    while i < s.len()
        invariant
            i <= s@.len(),
            out@ == old(out)@ + s@.take(i as int),
        decreases s@.len() - i,
    {
        out.push(s[i]);
        assert(s@.take(i + 1) == s@.take(i as int).push(s@[i as int]));
        i = i + 1;
    }
    assert(s@.take(s@.len() as int) == s@);
}

/// Append the decimal form of `n` to `out`.
pub fn push_decimal(out: &mut Vec<char>, n: u64)
    ensures
        final(out)@ == old(out)@ + decimal(n as nat),
    decreases n,
{
    if n >= 10 {
        push_decimal(out, n / 10);
    }
    out.push(digit_of(n % 10));
    assert(out@ == old(out)@ + decimal(n as nat));
}

/// The JSON text of an open packet.
pub fn open_packet_json(o: &OpenPacket) -> (r: Vec<char>)
    ensures
        r@ == open_json(o@),
{
    let mut out: Vec<char> = Vec::new();
    push_str(&mut out, "{\"sid\":");
    push_json_str(&mut out, &o.sid);
    push_str(&mut out, ",\"upgrades\":[");
    let ghost us = o.upgrades@.map_values(|u: String| u@);
    let ghost mid = out@;
    let mut i: usize = 0;
    while i < o.upgrades.len()
        invariant
            i <= o.upgrades@.len(),
            us == o.upgrades@.map_values(|u: String| u@),
            out@ == mid + quoted_list(us.take(i as int)),
        decreases o.upgrades@.len() - i,
    {
        if i > 0 {
            out.push(',');
        }
        push_json_str(&mut out, &o.upgrades[i]);
        proof {
            let t = us.take(i + 1);
            assert(t.drop_last() == us.take(i as int));
            if i == 0 {
                assert(us.take(0) == Seq::<Seq<char>>::empty());
            }
        }
        i = i + 1;
    }
    assert(us.take(o.upgrades@.len() as int) == us);
    push_str(&mut out, "],\"pingInterval\":");
    push_decimal(&mut out, o.ping_interval);
    push_str(&mut out, ",\"pingTimeout\":");
    push_decimal(&mut out, o.ping_timeout);
    push_str(&mut out, ",\"maxPayload\":");
    push_decimal(&mut out, o.max_payload);
    push_str(&mut out, "}");
    assert(out@ == open_json(o@));
    out
}

/// Append the text form of `p` to `out`.
pub fn push_packet_text(out: &mut Vec<char>, p: &Packet)
    ensures
        final(out)@ == old(out)@ + packet_text(p@),
        packet_faithful(p@),
{
    match p {
        Packet::Open(o) => {
            out.push('0');
            let j = open_packet_json(o);
            push_chars(out, &j);
        },
        Packet::Close => out.push('1'),
        Packet::Ping => out.push('2'),
        Packet::Pong => out.push('3'),
        Packet::PingUpgrade => {
            out.push('2');
            push_str(out, "probe");
            proof {
                reveal_strlit("probe");
            }
        },
        Packet::PongUpgrade => {
            out.push('3');
            push_str(out, "probe");
            proof {
                reveal_strlit("probe");
            }
        },
        Packet::Message(m) => {
            out.push('4');
            push_str(out, m.as_str());
        },
        Packet::Upgrade => out.push('5'),
        Packet::Noop => out.push('6'),
        Packet::Binary(b) | Packet::BinaryV3(b) => {
            out.push('b');
            let t = to_base64(b);
            push_chars(out, &t);
        },
    }
    assert(out@ == old(out)@ + packet_text(p@));
}

/// The text form of `p`.
pub fn encode_packet(p: &Packet) -> (r: Vec<char>)
    ensures
        r@ == packet_text(p@),
        packet_faithful(p@),
{
    let mut out: Vec<char> = Vec::new();
    push_packet_text(&mut out, p);
    assert(out@ == packet_text(p@));
    out
}

/// Whether `t` from index 1 on is `probe`.
fn rest_is_probe(t: &Vec<char>) -> (r: bool)
    requires
        t@.len() > 0,
    ensures
        r == (t@.drop_first() == seq!['p', 'r', 'o', 'b', 'e']),
{
    let r = t.len() == 6 && t[1] == 'p' && t[2] == 'r' && t[3] == 'o' && t[4] == 'b' && t[5]
        == 'e';
    proof {
        if r {
            assert(t@.drop_first() =~= seq!['p', 'r', 'o', 'b', 'e']);
        }
        if t@.drop_first() == seq!['p', 'r', 'o', 'b', 'e'] {
            let d = t@.drop_first();
            assert(d.len() == 5);
            assert(d[0] == 'p' && d[1] == 'r' && d[2] == 'o' && d[3] == 'b' && d[4] == 'e');
            assert(t@[1] == d[0] && t@[2] == d[1] && t@[3] == d[2] && t@[4] == d[3] && t@[5] == d[4]);
        }
    }
    r
}

/// The characters of `t` from index `from` on.
fn tail_of(t: &Vec<char>, from: usize) -> (r: Vec<char>)
    requires
        from <= t@.len(),
    ensures
        r@ == t@.skip(from as int),
{
    let mut out: Vec<char> = Vec::new();
    let mut i: usize = from;
    while i < t.len()
        invariant
            from <= i <= t@.len(),
            out@ == t@.subrange(from as int, i as int),
        decreases t@.len() - i,
    {
        out.push(t[i]);
        assert(t@.subrange(from as int, i + 1) == t@.subrange(from as int, i as int).push(
            t@[i as int],
        ));
        i = i + 1;
    }
    out
}

/// Read the packet that a client's text `t` stands for.
pub fn decode_packet(t: &Vec<char>) -> (r: Result<Packet, ParseError>)
    ensures
        match r {
            Ok(p) => parse_packet(t@) == Ok::<PacketView, ParseError>(p@),
            Err(e) => parse_packet(t@) == Err::<PacketView, ParseError>(e),
        },
{
    if t.len() == 0 {
        return Err(ParseError::Empty);
    }
    let bare = t.len() == 1;
    let c = t[0];
    proof {
        assert(t@.drop_first().len() == t@.len() - 1);
    }
    if c == '1' {
        if bare { Ok(Packet::Close) } else { Err(ParseError::UnexpectedPayload) }
    } else if c == '2' {
        if rest_is_probe(t) {
            Ok(Packet::PingUpgrade)
        } else if bare {
            Ok(Packet::Ping)
        } else {
            Err(ParseError::UnexpectedPayload)
        }
    } else if c == '3' {
        if rest_is_probe(t) {
            Ok(Packet::PongUpgrade)
        } else if bare {
            Ok(Packet::Pong)
        } else {
            Err(ParseError::UnexpectedPayload)
        }
    } else if c == '4' {
        let rest = tail_of(t, 1);
        assert(rest@ == t@.drop_first());
        Ok(Packet::Message(string_of(&rest)))
    } else if c == '5' {
        if bare { Ok(Packet::Upgrade) } else { Err(ParseError::UnexpectedPayload) }
    } else if c == '6' {
        if bare { Ok(Packet::Noop) } else { Err(ParseError::UnexpectedPayload) }
    } else if c == 'b' {
        let rest = tail_of(t, 1);
        assert(rest@ == t@.drop_first());
        match from_base64(&rest) {
            Some(b) => Ok(Packet::Binary(b)),
            None => Err(ParseError::InvalidBase64),
        }
    } else {
        Err(ParseError::InvalidPacketType)
    }
}

/// A packet reads back as itself.
pub proof fn lemma_packet_round_trip(p: PacketView)
    requires
        reads_back(p),
    ensures
        parse_packet(packet_text(p)) == Ok::<PacketView, ParseError>(p),
{
    let t = packet_text(p);
    assert(t.drop_first() =~= match p {
        PacketView::Message(m) => m,
        PacketView::PingUpgrade => seq!['p', 'r', 'o', 'b', 'e'],
        PacketView::PongUpgrade => seq!['p', 'r', 'o', 'b', 'e'],
        PacketView::Binary(b) => base64_of(b),
        _ => Seq::<char>::empty(),
    });
}

} // verus!
