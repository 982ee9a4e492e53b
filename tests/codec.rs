use std::collections::VecDeque;

use sockio::engine::{Engine, EngineConfig};
use sockio::packet::{decode_packet, encode_packet, Packet, ParseError};
use sockio::payload::{decode_payload, encode_batch, ProtocolVersion};

fn chars(s: &str) -> Vec<char> {
    s.chars().collect()
}

fn text(v: &[char]) -> String {
    v.iter().collect()
}

fn msg(s: &str) -> Packet {
    Packet::Message(s.to_string())
}

#[test]
fn packet_text_of_each_kind() {
    assert_eq!(text(&encode_packet(&Packet::Close)), "1");
    assert_eq!(text(&encode_packet(&Packet::Ping)), "2");
    assert_eq!(text(&encode_packet(&Packet::Pong)), "3");
    assert_eq!(text(&encode_packet(&Packet::PingUpgrade)), "2probe");
    assert_eq!(text(&encode_packet(&Packet::PongUpgrade)), "3probe");
    assert_eq!(text(&encode_packet(&msg("hello"))), "4hello");
    assert_eq!(text(&encode_packet(&Packet::Upgrade)), "5");
    assert_eq!(text(&encode_packet(&Packet::Noop)), "6");
}

#[test]
fn binary_packet_is_base64_text() {
    assert_eq!(text(&encode_packet(&Packet::Binary(vec![1, 2, 3]))), "bAQID");
    match decode_packet(&chars("bAQID")) {
        Ok(Packet::Binary(b)) => assert_eq!(b, vec![1, 2, 3]),
        _ => panic!("expected binary"),
    }
}

#[test]
fn decode_packet_reads_each_kind() {
    assert!(matches!(decode_packet(&chars("1")), Ok(Packet::Close)));
    assert!(matches!(decode_packet(&chars("2")), Ok(Packet::Ping)));
    assert!(matches!(decode_packet(&chars("3")), Ok(Packet::Pong)));
    assert!(matches!(decode_packet(&chars("2probe")), Ok(Packet::PingUpgrade)));
    assert!(matches!(decode_packet(&chars("3probe")), Ok(Packet::PongUpgrade)));
    assert!(matches!(decode_packet(&chars("5")), Ok(Packet::Upgrade)));
    assert!(matches!(decode_packet(&chars("6")), Ok(Packet::Noop)));
    match decode_packet(&chars("4héllo")) {
        Ok(Packet::Message(m)) => assert_eq!(m, "héllo"),
        _ => panic!("expected message"),
    }
}

#[test]
fn decode_packet_errors() {
    assert!(matches!(decode_packet(&chars("")), Err(ParseError::Empty)));
    assert!(matches!(decode_packet(&chars("9")), Err(ParseError::InvalidPacketType)));
    assert!(matches!(decode_packet(&chars("0{}")), Err(ParseError::InvalidPacketType)));
    assert!(matches!(decode_packet(&chars("1x")), Err(ParseError::UnexpectedPayload)));
    assert!(matches!(decode_packet(&chars("2pong")), Err(ParseError::UnexpectedPayload)));
    assert!(matches!(decode_packet(&chars("b!!")), Err(ParseError::InvalidBase64)));
}

#[test]
fn open_handshake_body_v4() {
    let mut engine = Engine::new(EngineConfig::new());
    let (sid, body) = engine.open_polling(&"AAAAAAAAAAAAAAAAAAAA".to_string(), ProtocolVersion::V4);
    assert_eq!(sid, 0);
    assert_eq!(
        text(&body),
        "0{\"sid\":\"AAAAAAAAAAAAAAAAAAAA\",\"upgrades\":[\"websocket\"],\"pingInterval\":25000,\"pingTimeout\":20000,\"maxPayload\":1000000}"
    );
    assert!(engine.live(sid));
    assert!(engine.session(sid).unwrap().is_http());
}

#[test]
fn open_handshake_body_v3_has_length_prefix() {
    let mut engine = Engine::new(EngineConfig::new());
    let (_, body) = engine.open_polling(&"abc".to_string(), ProtocolVersion::V3);
    let inner = "0{\"sid\":\"abc\",\"upgrades\":[\"websocket\"],\"pingInterval\":25000,\"pingTimeout\":20000,\"maxPayload\":1000000}";
    assert_eq!(text(&body), format!("{}:{}", inner.chars().count(), inner));
}

#[test]
fn v4_batch_uses_record_separator() {
    let mut q: VecDeque<Packet> = VecDeque::new();
    q.push_back(msg("hello"));
    q.push_back(Packet::Ping);
    q.push_back(msg("world"));
    let (body, n) = encode_batch(&mut q, ProtocolVersion::V4, 1000);
    assert_eq!(n, 3);
    assert_eq!(text(&body), "4hello\u{1e}2\u{1e}4world");
    assert!(q.is_empty());
}

#[test]
fn v3_batch_uses_length_prefixes() {
    let mut q: VecDeque<Packet> = VecDeque::new();
    q.push_back(msg("world"));
    q.push_back(msg("é"));
    let (body, n) = encode_batch(&mut q, ProtocolVersion::V3, 1000);
    assert_eq!(n, 2);
    assert_eq!(text(&body), "6:4world2:4é");
}

#[test]
fn batch_stops_before_exceeding_max_payload() {
    let mut q: VecDeque<Packet> = VecDeque::new();
    q.push_back(msg("aaaa"));
    q.push_back(msg("bbbb"));
    q.push_back(msg("c"));
    // "4aaaa" is 5 characters; adding "\x1e4bbbb" makes 11.
    let (body, n) = encode_batch(&mut q, ProtocolVersion::V4, 10);
    assert_eq!(n, 1);
    assert_eq!(text(&body), "4aaaa");
    assert_eq!(q.len(), 2);
    let (body, n) = encode_batch(&mut q, ProtocolVersion::V4, 10);
    assert_eq!(n, 2);
    assert_eq!(text(&body), "4bbbb\u{1e}4c");
}

#[test]
fn batch_always_takes_first_packet() {
    let mut q: VecDeque<Packet> = VecDeque::new();
    q.push_back(msg("a long message"));
    let (body, n) = encode_batch(&mut q, ProtocolVersion::V4, 3);
    assert_eq!(n, 1);
    assert_eq!(text(&body), "4a long message");
}

fn round_trip(v: ProtocolVersion) {
    let packets = vec![msg("hello"), Packet::Ping, Packet::Pong, msg(""), Packet::Close, Packet::Noop, Packet::Upgrade, Packet::PingUpgrade, msg("12:3"), Packet::Binary(vec![0, 255, 30])];
    let mut q: VecDeque<Packet> = packets.into_iter().collect();
    let (body, n) = encode_batch(&mut q, v, 1000);
    assert_eq!(n, 10);
    let d = decode_payload(&body, v, 1000);
    assert!(d.error.is_none());
    let again: Vec<String> = d.packets.iter().map(|p| text(&encode_packet(p))).collect();
    assert_eq!(again, vec!["4hello", "2", "3", "4", "1", "6", "5", "2probe", "412:3", "bAP8e"]);
    assert!(matches!(&d.packets[9], Packet::Binary(b) if b == &vec![0u8, 255, 30]));
}

#[test]
fn payload_round_trip_v4() {
    round_trip(ProtocolVersion::V4);
}

#[test]
fn payload_round_trip_v3() {
    round_trip(ProtocolVersion::V3);
}

#[test]
fn decode_empty_body_is_no_packets() {
    let d = decode_payload(&Vec::new(), ProtocolVersion::V4, 10);
    assert!(d.packets.is_empty());
    assert!(d.error.is_none());
}

#[test]
fn decode_too_large_payload() {
    let d = decode_payload(&chars("4hello"), ProtocolVersion::V4, 5);
    assert!(d.packets.is_empty());
    assert_eq!(d.error, Some(ParseError::PayloadTooLarge));
}

#[test]
fn decode_keeps_packets_before_a_bad_one() {
    let d = decode_payload(&chars("4a\u{1e}9\u{1e}4b"), ProtocolVersion::V4, 100);
    assert_eq!(d.packets.len(), 1);
    assert_eq!(d.error, Some(ParseError::InvalidPacketType));
}

#[test]
fn decode_v3_bad_frames() {
    let d = decode_payload(&chars("2:4ax:4"), ProtocolVersion::V3, 100);
    assert_eq!(d.packets.len(), 1);
    assert_eq!(d.error, Some(ParseError::InvalidFrame));
    let d = decode_payload(&chars("9:4a"), ProtocolVersion::V3, 100);
    assert!(d.packets.is_empty());
    assert_eq!(d.error, Some(ParseError::InvalidFrame));
    let d = decode_payload(&chars("99999999999999999999999:4a"), ProtocolVersion::V3, 100);
    assert_eq!(d.error, Some(ParseError::InvalidFrame));
}

#[test]
fn max_payload_counts_utf8_bytes() {
    let mut q: VecDeque<Packet> = VecDeque::new();
    q.push_back(msg("é"));
    q.push_back(msg("é"));
    // "4é" is 3 bytes; two of them with the separator make 7.
    let (_, n) = encode_batch(&mut q, ProtocolVersion::V4, 6);
    assert_eq!(n, 1);
    let (_, n) = encode_batch(&mut q, ProtocolVersion::V4, 6);
    assert_eq!(n, 1);
    let d = decode_payload(&chars("4éé"), ProtocolVersion::V4, 4);
    assert_eq!(d.error, Some(ParseError::PayloadTooLarge));
    let d = decode_payload(&chars("4éé"), ProtocolVersion::V4, 5);
    assert!(d.error.is_none());
}

#[test]
fn open_packet_escapes_its_strings() {
    let mut engine = Engine::new(EngineConfig::new());
    let (_, body) = engine.open_polling(&"a\"b".to_string(), ProtocolVersion::V4);
    assert!(text(&body).starts_with("0{\"sid\":\"a\\\"b\","));
}
