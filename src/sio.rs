//! Socket.IO packets: their header grammar, encoding and reading.

use vstd::prelude::*;

use crate::packet::{decimal, push_chars, push_decimal, push_str};
use crate::payload::{
    digits_value, is_digit, leading_digits, lemma_decimal_digits, lemma_leading_digits_append,
};
use crate::socketio::nsp_prefix;

verus! {

/// The kind of a Socket.IO packet.
#[derive(PartialEq, Eq, Structural, Debug, Clone, Copy)]
pub enum SioKind {
    Connect,
    Disconnect,
    Event,
    Ack,
    ConnectError,
    BinaryEvent,
    BinaryAck,
}

/// The digit that names a kind.
pub open spec fn kind_char(k: SioKind) -> char {
    match k {
        SioKind::Connect => '0',
        SioKind::Disconnect => '1',
        SioKind::Event => '2',
        SioKind::Ack => '3',
        SioKind::ConnectError => '4',
        SioKind::BinaryEvent => '5',
        SioKind::BinaryAck => '6',
    }
}

/// The kind that digit `c` names.
pub open spec fn kind_of(c: char) -> Option<SioKind> {
    if c == '0' {
        Some(SioKind::Connect)
    } else if c == '1' {
        Some(SioKind::Disconnect)
    } else if c == '2' {
        Some(SioKind::Event)
    } else if c == '3' {
        Some(SioKind::Ack)
    } else if c == '4' {
        Some(SioKind::ConnectError)
    } else if c == '5' {
        Some(SioKind::BinaryEvent)
    } else if c == '6' {
        Some(SioKind::BinaryAck)
    } else {
        None
    }
}

/// Whether packets of kind `k` announce binary attachments.
pub open spec fn has_attachments(k: SioKind) -> bool {
    k == SioKind::BinaryEvent || k == SioKind::BinaryAck
}

/// A Socket.IO packet: kind, attachment count, namespace, ack id and the
/// JSON payload text.
pub struct SioPacket {
    pub kind: SioKind,
    pub attachments: u64,
    pub nsp: Vec<char>,
    pub ack: Option<u64>,
    pub data: Vec<char>,
}

/// The mathematical form of a Socket.IO packet.
pub struct SioView {
    pub kind: SioKind,
    pub attachments: u64,
    pub nsp: Seq<char>,
    pub ack: Option<u64>,
    pub data: Seq<char>,
}

impl View for SioPacket {
    type V = SioView;

    open spec fn view(&self) -> SioView {
        SioView {
            kind: self.kind,
            attachments: self.attachments,
            nsp: self.nsp@,
            ack: self.ack,
            data: self.data@,
        }
    }
}

/// The text of a packet: the kind digit; for binary kinds the attachment
/// count and a dash; the namespace and a comma unless it is `/`; the ack id;
/// then the payload.
pub open spec fn sio_text(p: SioView) -> Seq<char> {
    seq![kind_char(p.kind)] + (if has_attachments(p.kind) {
        decimal(p.attachments as nat) + seq!['-']
    } else {
        seq![]
    }) + nsp_prefix(p.nsp) + (match p.ack {
        Some(id) => decimal(id as nat),
        None => seq![],
    }) + p.data
}

/// A packet whose text reads back as itself: a namespace that is `/` or a
/// path without commas, no attachment count on kinds without attachments,
/// and a payload that starts with neither a digit nor a slash (JSON text
/// never does).
pub open spec fn well_formed(p: SioView) -> bool {
    &&& p.nsp.len() > 0
    &&& p.nsp[0] == '/'
    &&& !p.nsp.contains(',')
    &&& (!has_attachments(p.kind) ==> p.attachments == 0)
    &&& (p.data.len() > 0 ==> !is_digit(p.data[0]) && p.data[0] != '/')
}

/// Where the first comma of `s` stands, if it has one.
pub open spec fn comma_index(s: Seq<char>) -> Option<nat>
    decreases s.len(),
{
    if s.len() == 0 {
        None
    } else if s[0] == ',' {
        Some(0)
    } else {
        match comma_index(s.drop_first()) {
            Some(i) => Some(i + 1),
            None => None,
        }
    }
}

/// The namespace at the front of `s` and what follows it.
#[verifier::opaque]
pub open spec fn split_nsp(s: Seq<char>) -> (Seq<char>, Seq<char>) {
    if s.len() > 0 && s[0] == '/' {
        match comma_index(s) {
            Some(c) => (s.take(c as int), s.skip((c + 1) as int)),
            None => (s, seq![]),
        }
    } else {
        (seq!['/'], s)
    }
}

/// The attachment count that a packet of kind `kind` announces at the front
/// of `s`, and what follows it.
#[verifier::opaque]
pub open spec fn read_count(kind: SioKind, s: Seq<char>) -> Option<(u64, Seq<char>)> {
    if !has_attachments(kind) {
        Some((0, s))
    } else {
        let n = leading_digits(s);
        if n > 0 && n < s.len() && s[n as int] == '-' && digits_value(s.take(n as int))
            <= u64::MAX {
            Some((digits_value(s.take(n as int)) as u64, s.skip((n + 1) as int)))
        } else {
            None
        }
    }
}

/// The ack id at the front of `s`, if any, and what follows it; `None`
/// when the id does not fit in a `u64`.
#[verifier::opaque]
pub open spec fn read_ack(s: Seq<char>) -> Option<(Option<u64>, Seq<char>)> {
    let m = leading_digits(s);
    if m == 0 {
        Some((None, s))
    } else if digits_value(s.take(m as int)) <= u64::MAX {
        Some((Some(digits_value(s.take(m as int)) as u64), s.skip(m as int)))
    } else {
        None
    }
}

/// The packet that text `t` stands for, if any.
pub open spec fn parse_sio(t: Seq<char>) -> Option<SioView> {
    if t.len() == 0 {
        None
    } else {
        match kind_of(t[0]) {
            None => None,
            Some(kind) => match read_count(kind, t.drop_first()) {
                None => None,
                Some((attachments, r2)) => {
                    let (nsp, r3) = split_nsp(r2);
                    match read_ack(r3) {
                        None => None,
                        Some((ack, data)) => Some(SioView { kind, attachments, nsp, ack, data }),
                    }
                },
            },
        }
    }
}

proof fn lemma_comma_index_at(s: Seq<char>, i: int)
    requires
        0 <= i < s.len(),
        s[i] == ',',
        forall|k: int| 0 <= k < i ==> s[k] != ',',
    ensures
        comma_index(s) == Some(i as nat),
    decreases i,
{
    if i > 0 {
        lemma_comma_index_at(s.drop_first(), i - 1);
    }
}

proof fn lemma_comma_index_none(s: Seq<char>)
    requires
        forall|k: int| 0 <= k < s.len() ==> s[k] != ',',
    ensures
        comma_index(s) is None,
    decreases s.len(),
{
    if s.len() > 0 {
        lemma_comma_index_none(s.drop_first());
    }
}

/// The text of the attachment count of a packet of kind `k`.
pub open spec fn count_text(k: SioKind, attachments: u64) -> Seq<char> {
    if has_attachments(k) {
        decimal(attachments as nat) + seq!['-']
    } else {
        seq![]
    }
}

/// The text of an ack id.
pub open spec fn ack_text(ack: Option<u64>) -> Seq<char> {
    match ack {
        Some(id) => decimal(id as nat),
        None => seq![],
    }
}

proof fn lemma_read_count_text(k: SioKind, attachments: u64, rest: Seq<char>)
    requires
        !has_attachments(k) ==> attachments == 0,
    ensures
        read_count(k, count_text(k, attachments) + rest) == Some((attachments, rest)),
{
    reveal(read_count);
    let s = count_text(k, attachments) + rest;
    if has_attachments(k) {
        let d = decimal(attachments as nat);
        lemma_decimal_digits(attachments as nat);
        assert(s =~= d + (seq!['-'] + rest));
        lemma_leading_digits_append(d, seq!['-'] + rest);
        assert((seq!['-'] + rest)[0] == '-');
        assert(leading_digits(seq!['-'] + rest) == 0);
        assert(s[d.len() as int] == '-');
        assert(s.take(d.len() as int) =~= d);
        assert(s.skip((d.len() + 1) as int) =~= rest);
    } else {
        assert(s =~= rest);
    }
}

proof fn lemma_read_ack_text(ack: Option<u64>, data: Seq<char>)
    requires
        data.len() > 0 ==> !is_digit(data[0]),
    ensures
        read_ack(ack_text(ack) + data) == Some((ack, data)),
{
    reveal(read_ack);
    let k = ack_text(ack);
    let s = k + data;
    assert(leading_digits(data) == 0);
    match ack {
        Some(id) => {
            lemma_decimal_digits(id as nat);
            lemma_leading_digits_append(k, data);
            assert(s.take(k.len() as int) =~= k);
            assert(s.skip(k.len() as int) =~= data);
        },
        None => {
            assert(s =~= data);
        },
    }
}

proof fn lemma_split_nsp_text(nsp: Seq<char>, rest: Seq<char>)
    requires
        nsp.len() > 0,
        nsp[0] == '/',
        !nsp.contains(','),
        nsp == seq!['/'] ==> rest.len() == 0 || rest[0] != '/',
    ensures
        split_nsp(nsp_prefix(nsp) + rest) == (nsp, rest),
{
    reveal(split_nsp);
    let s = nsp_prefix(nsp) + rest;
    if nsp == seq!['/'] {
        assert(s =~= rest);
    } else {
        assert(s =~= nsp + (seq![','] + rest));
        assert(s[nsp.len() as int] == ',');
        assert forall|i: int| 0 <= i < nsp.len() implies s[i] != ',' by {
            assert(s[i] == nsp[i]);
            assert(nsp.contains(nsp[i]));
        }
        lemma_comma_index_at(s, nsp.len() as int);
        assert(s[0] == '/');
        assert(s.take(nsp.len() as int) =~= nsp);
        assert(s.skip((nsp.len() + 1) as int) =~= rest);
    }
}

/// A well-formed packet reads back as itself.
pub proof fn lemma_sio_round_trip(p: SioView)
    requires
        well_formed(p),
    ensures
        parse_sio(sio_text(p)) == Some(p),
{
    let t = sio_text(p);
    let rest3 = ack_text(p.ack) + p.data;
    let rest2 = nsp_prefix(p.nsp) + rest3;
    let r1 = count_text(p.kind, p.attachments) + rest2;
    assert(t =~= seq![kind_char(p.kind)] + r1);
    assert(t[0] == kind_char(p.kind));
    assert(kind_of(kind_char(p.kind)) == Some(p.kind));
    assert(t.drop_first() =~= r1);
    lemma_read_count_text(p.kind, p.attachments, rest2);
    if p.nsp == seq!['/'] && rest3.len() > 0 {
        match p.ack {
            Some(id) => {
                lemma_decimal_digits(id as nat);
                assert(rest3[0] == ack_text(p.ack)[0]);
            },
            None => {
                assert(rest3[0] == p.data[0]);
            },
        }
    }
    lemma_split_nsp_text(p.nsp, rest3);
    lemma_read_ack_text(p.ack, p.data);
}

/// The kind that digit `c` names.
fn kind_from(c: char) -> (r: Option<SioKind>)
    ensures
        r == kind_of(c),
{
    if c == '0' {
        Some(SioKind::Connect)
    } else if c == '1' {
        Some(SioKind::Disconnect)
    } else if c == '2' {
        Some(SioKind::Event)
    } else if c == '3' {
        Some(SioKind::Ack)
    } else if c == '4' {
        Some(SioKind::ConnectError)
    } else if c == '5' {
        Some(SioKind::BinaryEvent)
    } else if c == '6' {
        Some(SioKind::BinaryAck)
    } else {
        None
    }
}

/// The digit that names kind `k`.
fn char_of(k: SioKind) -> (c: char)
    ensures
        c == kind_char(k),
{
    match k {
        SioKind::Connect => '0',
        SioKind::Disconnect => '1',
        SioKind::Event => '2',
        SioKind::Ack => '3',
        SioKind::ConnectError => '4',
        SioKind::BinaryEvent => '5',
        SioKind::BinaryAck => '6',
    }
}

/// The text of packet `p`.
pub fn encode_sio(p: &SioPacket) -> (r: Vec<char>)
    ensures
        r@ == sio_text(p@),
{
    let mut out: Vec<char> = Vec::new();
    out.push(char_of(p.kind));
    if p.kind == SioKind::BinaryEvent || p.kind == SioKind::BinaryAck {
        push_decimal(&mut out, p.attachments);
        out.push('-');
    }
    let main = p.nsp.len() == 1 && p.nsp[0] == '/';
    assert(main == (p.nsp@ == seq!['/'])) by {
        if p.nsp@ == seq!['/'] {
            assert(p.nsp@[0] == '/');
        }
        if main {
            assert(p.nsp@ =~= seq!['/']);
        }
    }
    if !main {
        push_chars(&mut out, &p.nsp);
        out.push(',');
    }
    match p.ack {
        Some(id) => push_decimal(&mut out, id),
        None => {},
    }
    push_chars(&mut out, &p.data);
    assert(out@ =~= sio_text(p@));
    out
}

/// The characters of `t` from `from` up to `to`.
fn slice_of(t: &Vec<char>, from: usize, to: usize) -> (r: Vec<char>)
    requires
        from <= to <= t@.len(),
    ensures
        r@ == t@.subrange(from as int, to as int),
{
    let mut out: Vec<char> = Vec::new();
    let mut i: usize = from;
    while i < to
        invariant
            from <= i <= to <= t@.len(),
            out@ == t@.subrange(from as int, i as int),
        decreases to - i,
    {
        out.push(t[i]);
        assert(t@.subrange(from as int, i + 1) == t@.subrange(from as int, i as int).push(
            t@[i as int],
        ));
        i = i + 1;
    }
    out
}

/// The run of digits in `t` from `from` on: where it ends, and its value
/// when that fits in a `u64`.
fn read_digits(t: &Vec<char>, from: usize) -> (r: (usize, Option<u64>))
    requires
        from <= t@.len(),
    ensures
        from <= r.0 <= t@.len(),
        r.0 - from == leading_digits(t@.skip(from as int)),
        r.1 == if digits_value(t@.subrange(from as int, r.0 as int)) <= u64::MAX {
            Some(digits_value(t@.subrange(from as int, r.0 as int)) as u64)
        } else {
            None::<u64>
        },
{
    let n = t.len();
    let mut j: usize = from;
    let mut val: u128 = 0;
    let mut big = false;
    assert(t@.subrange(from as int, from as int) == Seq::<char>::empty());
    while j < n && '0' <= t[j] && t[j] <= '9'
        invariant
            n == t@.len(),
            from <= j <= n,
            leading_digits(t@.skip(from as int)) == (j - from) + leading_digits(t@.skip(j as int)),
            !big ==> val == digits_value(t@.subrange(from as int, j as int)) && val <= u64::MAX,
            big ==> digits_value(t@.subrange(from as int, j as int)) > u64::MAX,
        decreases n - j,
    {
        proof {
            assert(t@.skip(j as int).drop_first() == t@.skip(j + 1));
            assert(t@.skip(j as int)[0] == t@[j as int]);
            assert(t@.subrange(from as int, j + 1).drop_last() == t@.subrange(from as int, j as int));
        }
        let d = (t[j] as u32 - 48) as u128;
        if !big {
            val = val * 10 + d;
            if val > u64::MAX as u128 {
                big = true;
            }
        } else {
            proof {
                let pv = digits_value(t@.subrange(from as int, j as int));
                assert(pv * 10 >= pv) by (nonlinear_arith);
            }
        }
        j = j + 1;
    }
    proof {
        if j < n {
            assert(t@.skip(j as int)[0] == t@[j as int]);
        }
    }
    if big {
        (j, None)
    } else {
        (j, Some(val as u64))
    }
}

/// Read the attachment count of a packet of kind `kind` at `pos`: the count
/// and where the rest starts.
fn exec_read_count(t: &Vec<char>, kind: SioKind, pos: usize) -> (r: Option<(u64, usize)>)
    requires
        pos <= t@.len(),
    ensures
        match r {
            Some((c, next)) => next <= t@.len() && read_count(kind, t@.skip(pos as int)) == Some((c, t@.skip(next as int))),
            None => read_count(kind, t@.skip(pos as int)) is None,
        },
{
    reveal(read_count);
    let ghost s = t@.skip(pos as int);
    if !(kind == SioKind::BinaryEvent || kind == SioKind::BinaryAck) {
        return Some((0, pos));
    }
    let (end, count) = read_digits(t, pos);
    proof {
        assert(s.take((end - pos) as int) == t@.subrange(pos as int, end as int));
        if end < t@.len() {
            assert(s[(end - pos) as int] == t@[end as int]);
        }
    }
    if end == pos || end >= t.len() || t[end] != '-' {
        return None;
    }
    match count {
        Some(c) => {
            assert(s.skip((end - pos + 1) as int) == t@.skip(end + 1));
            Some((c, end + 1))
        },
        None => None,
    }
}

/// Read the namespace at `pos`: the namespace and where the rest starts.
fn exec_split_nsp(t: &Vec<char>, pos: usize) -> (r: (Vec<char>, usize))
    requires
        pos <= t@.len(),
    ensures
        r.1 <= t@.len(),
        split_nsp(t@.skip(pos as int)) == (r.0@, t@.skip(r.1 as int)),
{
    reveal(split_nsp);
    let ghost s = t@.skip(pos as int);
    let n = t.len();
    if pos < n && t[pos] == '/' {
        assert(s[0] == t@[pos as int]);
        let mut j: usize = pos;
        while j < n && t[j] != ','
            invariant
                pos <= j <= n,
                n == t@.len(),
                forall|k: int| pos <= k < j ==> t@[k] != ',',
            decreases n - j,
        {
            j = j + 1;
        }
        let nsp = slice_of(t, pos, j);
        proof {
            assert forall|k: int| 0 <= k < j - pos implies s[k] != ',' by {
                assert(s[k] == t@[pos + k]);
            }
        }
        if j < n {
            proof {
                assert(s[(j - pos) as int] == ',');
                lemma_comma_index_at(s, (j - pos) as int);
                assert(s.take((j - pos) as int) == nsp@);
                assert(s.skip((j - pos + 1) as int) == t@.skip(j + 1));
            }
            (nsp, j + 1)
        } else {
            proof {
                lemma_comma_index_none(s);
                assert(s == nsp@);
                assert(t@.skip(n as int) == Seq::<char>::empty());
            }
            (nsp, n)
        }
    } else {
        let mut nsp: Vec<char> = Vec::new();
        nsp.push('/');
        assert(nsp@ == seq!['/']);
        (nsp, pos)
    }
}

/// Read the ack id at `pos`, if any: the id and where the payload starts.
fn exec_read_ack(t: &Vec<char>, pos: usize) -> (r: Option<(Option<u64>, usize)>)
    requires
        pos <= t@.len(),
    ensures
        match r {
            Some((a, next)) => next <= t@.len() && read_ack(t@.skip(pos as int)) == Some((a, t@.skip(next as int))),
            None => read_ack(t@.skip(pos as int)) is None,
        },
{
    reveal(read_ack);
    let ghost s = t@.skip(pos as int);
    let (end, value) = read_digits(t, pos);
    assert(s.take((end - pos) as int) == t@.subrange(pos as int, end as int));
    assert(s.skip((end - pos) as int) == t@.skip(end as int));
    if end == pos {
        return Some((None, pos));
    }
    match value {
        Some(v) => Some((Some(v), end)),
        None => None,
    }
}

/// Read the Socket.IO packet that text `t` stands for.
pub fn decode_sio(t: &Vec<char>) -> (r: Option<SioPacket>)
    ensures
        match r {
            Some(p) => parse_sio(t@) == Some(p@),
            None => parse_sio(t@) is None,
        },
{
    let n = t.len();
    if n == 0 {
        return None;
    }
    let kind = match kind_from(t[0]) {
        Some(k) => k,
        None => return None,
    };
    assert(t@.drop_first() == t@.skip(1));
    let (attachments, pos) = match exec_read_count(t, kind, 1) {
        Some(x) => x,
        None => return None,
    };
    let (nsp, pos2) = exec_split_nsp(t, pos);
    let (ack, pos3) = match exec_read_ack(t, pos2) {
        Some(x) => x,
        None => return None,
    };
    let data = slice_of(t, pos3, n);
    assert(t@.skip(pos3 as int) == data@);
    Some(SioPacket { kind, attachments, nsp, ack, data })
}

} // verus!
