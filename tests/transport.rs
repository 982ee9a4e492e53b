use sockio::engine::{Engine, EngineConfig, EngineError, Inbound, UpgradeState, WsFrame, WsStart, WsStep};
use sockio::packet::{Packet, ParseError};
use sockio::payload::ProtocolVersion;
use sockio::session::{DisconnectReason, SendError, Session, TransportType};

fn chars(s: &str) -> Vec<char> {
    s.chars().collect()
}

fn text(v: &[char]) -> String {
    v.iter().collect()
}

fn config(buffer: usize) -> EngineConfig {
    let mut c = EngineConfig::new();
    c.max_buffer_size = buffer;
    c
}

fn open(engine: &mut Engine, v: ProtocolVersion) -> u64 {
    engine.open_polling(&"sid".to_string(), v).0
}

#[test]
fn config_defaults() {
    let c = EngineConfig::new();
    assert_eq!(c.ping_interval, 25000);
    assert_eq!(c.ping_timeout, 20000);
    assert_eq!(c.max_payload, 1000000);
}

#[test]
fn post_message_then_poll_echo_v4() {
    let mut engine = Engine::new(EngineConfig::new());
    let sid = open(&mut engine, ProtocolVersion::V4);
    let out = engine.post(sid, &chars("4hello"));
    assert!(out.result.is_ok());
    assert_eq!(out.inbound.len(), 1);
    assert!(matches!(&out.inbound[0], Inbound::Message(m) if m == "hello"));
    engine.send(sid, Packet::Message("world".to_string())).unwrap();
    assert!(engine.poll_begin(sid).is_ok());
    assert_eq!(text(&engine.poll_take(sid).unwrap()), "4world");
    engine.poll_end(sid);
}

#[test]
fn post_message_then_poll_echo_v3() {
    let mut engine = Engine::new(EngineConfig::new());
    let sid = open(&mut engine, ProtocolVersion::V3);
    let out = engine.post(sid, &chars("6:4hello"));
    assert!(out.result.is_ok());
    assert!(matches!(&out.inbound[0], Inbound::Message(m) if m == "hello"));
    engine.send(sid, Packet::Message("world".to_string())).unwrap();
    assert!(engine.poll_begin(sid).is_ok());
    assert_eq!(text(&engine.poll_take(sid).unwrap()), "6:4world");
}

#[test]
fn poll_waits_while_queue_is_empty() {
    let mut engine = Engine::new(EngineConfig::new());
    let sid = open(&mut engine, ProtocolVersion::V4);
    assert!(engine.poll_begin(sid).is_ok());
    assert!(engine.poll_take(sid).is_none());
    engine.send(sid, Packet::Ping).unwrap();
    assert_eq!(text(&engine.poll_take(sid).unwrap()), "2");
}

#[test]
fn double_poll_closes_session() {
    let mut engine = Engine::new(EngineConfig::new());
    let sid = open(&mut engine, ProtocolVersion::V4);
    assert!(engine.poll_begin(sid).is_ok());
    assert!(matches!(engine.poll_begin(sid), Err(EngineError::MultipleHttpPolling)));
    assert_eq!(engine.session(sid).unwrap().reason(), Some(DisconnectReason::MultipleHttpPollingError));
    assert!(!engine.live(sid));
    // The first poll keeps the queue and is woken by a close packet.
    assert!(engine.session(sid).unwrap().rx_held_now());
    assert_eq!(text(&engine.poll_take(sid).unwrap()), "1");
    engine.poll_end(sid);
    assert!(matches!(engine.poll_begin(sid), Err(EngineError::UnknownSessionID)));
}

#[test]
fn poll_unknown_and_mismatched_sessions() {
    let mut engine = Engine::new(EngineConfig::new());
    assert!(matches!(engine.poll_begin(7), Err(EngineError::UnknownSessionID)));
    let ws = match engine.ws_connect(&"w".to_string(), ProtocolVersion::V4, None) {
        Ok(WsStart::New(s, _)) => s,
        _ => panic!("expected a new session"),
    };
    assert!(matches!(engine.poll_begin(ws), Err(EngineError::TransportMismatch)));
    assert!(matches!(engine.post(ws, &chars("4x")).result, Err(EngineError::TransportMismatch)));
    assert!(matches!(engine.post(9, &chars("4x")).result, Err(EngineError::UnknownSessionID)));
}

#[test]
fn post_close_wakes_poll_and_closes() {
    let mut engine = Engine::new(EngineConfig::new());
    let sid = open(&mut engine, ProtocolVersion::V4);
    let out = engine.post(sid, &chars("4a\u{1e}1\u{1e}4b"));
    assert!(out.result.is_ok());
    assert_eq!(out.inbound.len(), 1);
    assert_eq!(engine.session(sid).unwrap().reason(), Some(DisconnectReason::TransportClose));
    assert!(engine.poll_begin(sid).is_err());
    assert_eq!(engine.session(sid).unwrap().queued_len(), 1);
}

#[test]
fn post_bad_packet_keeps_session() {
    let mut engine = Engine::new(EngineConfig::new());
    let sid = open(&mut engine, ProtocolVersion::V4);
    let out = engine.post(sid, &chars("5"));
    assert!(matches!(out.result, Err(EngineError::BadPacket(Packet::Upgrade))));
    assert!(engine.live(sid));
}

#[test]
fn post_unreadable_body_closes_session() {
    let mut engine = Engine::new(EngineConfig::new());
    let sid = open(&mut engine, ProtocolVersion::V4);
    let out = engine.post(sid, &chars("4ok\u{1e}x"));
    assert!(matches!(out.result, Err(EngineError::PacketParsing(ParseError::InvalidPacketType))));
    assert_eq!(out.inbound.len(), 1);
    assert_eq!(engine.session(sid).unwrap().reason(), Some(DisconnectReason::PacketParsingError));
}

#[test]
fn post_heartbeat_signals() {
    let mut engine = Engine::new(EngineConfig::new());
    let sid = open(&mut engine, ProtocolVersion::V4);
    assert!(engine.post(sid, &chars("3")).result.is_ok());
    assert!(engine.session(sid).unwrap().heartbeat_pending());
    assert!(matches!(engine.post(sid, &chars("3")).result, Err(EngineError::HeartbeatTimeout)));
}

#[test]
fn post_binary_goes_to_application() {
    let mut engine = Engine::new(EngineConfig::new());
    let sid = open(&mut engine, ProtocolVersion::V4);
    let out = engine.post(sid, &chars("bAQID"));
    assert!(out.result.is_ok());
    assert!(matches!(&out.inbound[0], Inbound::Binary(b) if b == &vec![1u8, 2, 3]));
}

#[test]
fn session_send_errors() {
    let mut s = Session::new(1, ProtocolVersion::V4, TransportType::Polling, 1);
    assert_eq!(s.send(Packet::Ping), Ok(()));
    assert_eq!(s.send(Packet::Ping), Err(SendError::BufferFull));
    assert!(s.close(DisconnectReason::ServerDisconnect));
    assert!(!s.close(DisconnectReason::ClientDisconnect));
    assert_eq!(s.reason(), Some(DisconnectReason::ServerDisconnect));
    assert_eq!(s.send(Packet::Ping), Err(SendError::Closed));
}

#[test]
fn delivery_keeps_enqueue_order() {
    let mut s = Session::new(1, ProtocolVersion::V4, TransportType::Polling, 8);
    for m in ["a", "b", "c"] {
        s.send(Packet::Message(m.to_string())).unwrap();
    }
    assert!(s.try_lock_rx());
    assert!(!s.try_lock_rx());
    let body = s.take_batch(3).unwrap();
    assert_eq!(text(&body), "4a");
    assert_eq!(s.queued_len(), 2);
    assert!(matches!(s.take_one(), Some(Packet::Message(m)) if m == "b"));
    let body = s.take_batch(100).unwrap();
    assert_eq!(text(&body), "4c");
    assert_eq!(s.queued_len(), 0);
    s.unlock_rx();
    assert!(s.try_lock_rx());
}

#[test]
fn heartbeat_expiry() {
    let mut s = Session::new(1, ProtocolVersion::V4, TransportType::Polling, 8);
    assert!(s.heartbeat_signal());
    assert!(!s.heartbeat_signal());
    assert!(s.heartbeat_expired());
    assert!(!s.heartbeat_pending());
    assert!(!s.heartbeat_expired());
    assert_eq!(s.reason(), Some(DisconnectReason::HeartbeatTimeout));
}

#[test]
fn upgrade_from_polling_v4() {
    let mut engine = Engine::new(EngineConfig::new());
    let sid = open(&mut engine, ProtocolVersion::V4);
    assert!(engine.poll_begin(sid).is_ok());
    let state = match engine.ws_connect(&"sid".to_string(), ProtocolVersion::V4, Some(sid)) {
        Ok(WsStart::Upgrading(s)) => s,
        _ => panic!("expected an upgrade"),
    };
    assert_eq!(state, UpgradeState::AwaitProbe);
    // The pending poll is woken by a no-op.
    assert_eq!(text(&engine.poll_take(sid).unwrap()), "6");
    let (state, reply) = engine.upgrade_step(sid, ProtocolVersion::V4, state, WsFrame::Text(chars("2probe"))).ok().unwrap();
    assert_eq!(text(&reply.unwrap()), "3probe");
    let (state, reply) = engine.upgrade_step(sid, ProtocolVersion::V4, state, WsFrame::Text(chars("5"))).ok().unwrap();
    assert_eq!(state, UpgradeState::AwaitPollEnd);
    assert!(reply.is_none());
    assert!(!engine.upgrade_finish(sid));
    engine.poll_end(sid);
    assert!(engine.upgrade_finish(sid));
    assert!(engine.session(sid).unwrap().is_ws());
    engine.send(sid, Packet::Message("x".to_string())).unwrap();
    assert!(matches!(engine.poll_begin(sid), Err(EngineError::TransportMismatch)));
    let (frames, stop) = engine.ws_drain(sid);
    assert!(!stop);
    assert_eq!(frames.len(), 1);
    assert!(matches!(&frames[0], WsFrame::Text(t) if text(t) == "4x"));
}

#[test]
fn upgrade_v3_sends_noop_after_probe() {
    let mut engine = Engine::new(EngineConfig::new());
    let sid = open(&mut engine, ProtocolVersion::V3);
    let state = match engine.ws_connect(&"sid".to_string(), ProtocolVersion::V3, Some(sid)) {
        Ok(WsStart::Upgrading(s)) => s,
        _ => panic!("expected an upgrade"),
    };
    assert_eq!(engine.session(sid).unwrap().queued_len(), 0);
    let (_, _) = engine.upgrade_step(sid, ProtocolVersion::V3, state, WsFrame::Text(chars("2probe"))).ok().unwrap();
    assert_eq!(engine.session(sid).unwrap().queued_len(), 1);
}

#[test]
fn upgrade_errors() {
    let mut engine = Engine::new(EngineConfig::new());
    let sid = open(&mut engine, ProtocolVersion::V4);
    assert!(matches!(engine.ws_connect(&"x".to_string(), ProtocolVersion::V4, Some(5)), Err(EngineError::UnknownSessionID)));
    let r = engine.upgrade_step(sid, ProtocolVersion::V4, UpgradeState::AwaitProbe, WsFrame::Binary(vec![1]));
    assert!(matches!(r, Err(EngineError::UpgradeError)));
    let r = engine.upgrade_step(sid, ProtocolVersion::V4, UpgradeState::AwaitProbe, WsFrame::Text(chars("4hi")));
    assert!(matches!(r, Err(EngineError::UpgradeError)));
    let r = engine.upgrade_step(sid, ProtocolVersion::V4, UpgradeState::AwaitProbe, WsFrame::Text(chars("zz")));
    assert!(matches!(r, Err(EngineError::UpgradeError)));
    let r = engine.upgrade_step(sid, ProtocolVersion::V4, UpgradeState::AwaitUpgrade, WsFrame::Close);
    assert!(matches!(r, Err(EngineError::UpgradeError)));
    let r = engine.upgrade_step(sid, ProtocolVersion::V4, UpgradeState::AwaitUpgrade, WsFrame::Text(chars("")));
    assert!(matches!(r, Err(EngineError::UpgradeError)));
    let r = engine.upgrade_step(sid, ProtocolVersion::V4, UpgradeState::AwaitUpgrade, WsFrame::Text(chars("2probe")));
    assert!(matches!(r, Err(EngineError::UpgradeError)));
    engine.upgrade_finish(sid);
    assert!(matches!(engine.ws_connect(&"x".to_string(), ProtocolVersion::V4, Some(sid)), Err(EngineError::UpgradeError)));
}

#[test]
fn upgrade_noop_fails_on_full_queue() {
    let mut engine = Engine::new(config(1));
    let sid = open(&mut engine, ProtocolVersion::V4);
    engine.send(sid, Packet::Ping).unwrap();
    let r = engine.ws_connect(&"x".to_string(), ProtocolVersion::V4, Some(sid));
    assert!(matches!(r, Err(EngineError::Send(SendError::BufferFull))));
}

#[test]
fn new_websocket_session_sends_open() {
    let mut engine = Engine::new(EngineConfig::new());
    match engine.ws_connect(&"abc".to_string(), ProtocolVersion::V4, None) {
        Ok(WsStart::New(sid, open)) => {
            assert_eq!(text(&open), "0{\"sid\":\"abc\",\"upgrades\":[],\"pingInterval\":25000,\"pingTimeout\":20000,\"maxPayload\":1000000}");
            assert!(engine.session(sid).unwrap().is_ws());
        }
        _ => panic!("expected a new session"),
    }
}

#[test]
fn websocket_reader_dispatch() {
    let mut engine = Engine::new(EngineConfig::new());
    let sid = match engine.ws_connect(&"abc".to_string(), ProtocolVersion::V4, None) {
        Ok(WsStart::New(sid, _)) => sid,
        _ => panic!("expected a new session"),
    };
    match engine.ws_read(sid, WsFrame::Text(chars("4hi"))) {
        Ok(WsStep::Continue(v)) => assert!(matches!(&v[0], Inbound::Message(m) if m == "hi")),
        _ => panic!("expected a message"),
    }
    match engine.ws_read(sid, WsFrame::Binary(vec![9])) {
        Ok(WsStep::Continue(v)) => assert!(matches!(&v[0], Inbound::Binary(b) if b == &vec![9u8])),
        _ => panic!("expected binary"),
    }
    assert!(matches!(engine.ws_read(sid, WsFrame::Text(chars("3"))), Ok(WsStep::Continue(_))));
    assert!(matches!(engine.ws_read(sid, WsFrame::Text(chars("1"))), Ok(WsStep::Stop)));
    assert_eq!(engine.session(sid).unwrap().reason(), Some(DisconnectReason::TransportClose));
}

#[test]
fn websocket_reader_errors_close_session() {
    let mut engine = Engine::new(EngineConfig::new());
    let sid = match engine.ws_connect(&"abc".to_string(), ProtocolVersion::V4, None) {
        Ok(WsStart::New(sid, _)) => sid,
        _ => panic!("expected a new session"),
    };
    assert!(matches!(engine.ws_read(sid, WsFrame::Text(chars("zz"))), Err(EngineError::PacketParsing(ParseError::InvalidPacketType))));
    assert_eq!(engine.session(sid).unwrap().reason(), Some(DisconnectReason::PacketParsingError));
}

#[test]
fn websocket_writer_maps_packets() {
    let mut engine = Engine::new(EngineConfig::new());
    let sid = match engine.ws_connect(&"abc".to_string(), ProtocolVersion::V4, None) {
        Ok(WsStart::New(sid, _)) => sid,
        _ => panic!("expected a new session"),
    };
    engine.send(sid, Packet::Noop).unwrap();
    engine.send(sid, Packet::Binary(vec![7])).unwrap();
    engine.send(sid, Packet::Ping).unwrap();
    engine.send(sid, Packet::Close).unwrap();
    engine.send(sid, Packet::Message("late".to_string())).unwrap();
    let (frames, stop) = engine.ws_drain(sid);
    assert!(stop);
    assert_eq!(frames.len(), 3);
    assert!(matches!(&frames[0], WsFrame::Binary(b) if b == &vec![7u8]));
    assert!(matches!(&frames[1], WsFrame::Text(t) if text(t) == "2"));
    assert!(matches!(&frames[2], WsFrame::Close));
    assert_eq!(engine.session(sid).unwrap().queued_len(), 1);
    assert_eq!(engine.session(sid).unwrap().reason(), Some(DisconnectReason::ServerDisconnect));
    assert_eq!(engine.send(sid, Packet::Ping), Err(SendError::Closed));
}

#[test]
fn heartbeat_ping_and_timeout_through_engine() {
    let mut engine = Engine::new(EngineConfig::new());
    let sid = open(&mut engine, ProtocolVersion::V4);
    assert!(engine.heartbeat_ping(sid).is_ok());
    assert!(engine.poll_begin(sid).is_ok());
    assert_eq!(text(&engine.poll_take(sid).unwrap()), "2");
    engine.poll_end(sid);
    assert!(engine.post(sid, &chars("3")).result.is_ok());
    assert!(engine.heartbeat_expired(sid));
    assert!(engine.heartbeat_ping(sid).is_ok());
    assert!(!engine.heartbeat_expired(sid));
    assert_eq!(engine.session(sid).unwrap().reason(), Some(DisconnectReason::HeartbeatTimeout));
    assert_eq!(engine.heartbeat_ping(sid), Err(SendError::Closed));
}
