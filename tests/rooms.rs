use sockio::adapter::{BroadcastOptions, Namespace};
use sockio::engine::{Engine, EngineConfig};
use sockio::operators::Operators;
use sockio::payload::ProtocolVersion;
use sockio::session::{SendError, TransportType};
use sockio::socketio::{encode_event, AckCollector, AckError};

fn chars(s: &str) -> Vec<char> {
    s.chars().collect()
}

fn text(v: &[char]) -> String {
    v.iter().collect()
}

/// Three polling sockets A, B, C: A and B in `r1`, C in `r2`.
fn setup() -> (Engine, Namespace, [u64; 3]) {
    let mut engine = Engine::new(EngineConfig::new());
    let mut ns = Namespace::new("/".to_string());
    let mut ids = [0u64; 3];
    for id in ids.iter_mut() {
        *id = engine.create_session(ProtocolVersion::V4, TransportType::Polling);
        ns.add_socket(*id);
    }
    ns.add_all(ids[0], &vec!["r1".to_string()]);
    ns.add_all(ids[1], &vec!["r1".to_string()]);
    ns.add_all(ids[2], &vec!["r2".to_string()]);
    (engine, ns, ids)
}

fn poll(engine: &mut Engine, sid: u64) -> Option<String> {
    engine.poll_begin(sid).ok().unwrap();
    let r = engine.poll_take(sid).map(|b| text(&b));
    engine.poll_end(sid);
    r
}

#[test]
fn room_broadcast_reaches_other_members_only() {
    let (mut engine, ns, [a, b, c]) = setup();
    let r = Operators::new(Some(a)).to("r1").emit(&mut engine, &ns, &"x".to_string(), &chars("1"));
    assert!(r.is_empty());
    assert_eq!(poll(&mut engine, b), Some("42[\"x\",1]".to_string()));
    assert_eq!(poll(&mut engine, a), None);
    assert_eq!(poll(&mut engine, c), None);
}

#[test]
fn within_keeps_the_emitter() {
    let (_, ns, [a, b, _]) = setup();
    assert_eq!(Operators::new(Some(a)).within("r1").sockets(&ns), vec![a, b]);
    assert_eq!(Operators::new(Some(a)).to("r1").sockets(&ns), vec![b]);
}

#[test]
fn broadcast_and_except() {
    let (_, ns, [a, b, c]) = setup();
    assert_eq!(Operators::new(Some(a)).broadcast().sockets(&ns), vec![b, c]);
    assert_eq!(Operators::new(None).sockets(&ns), vec![a, b, c]);
    assert_eq!(Operators::new(Some(c)).except("r1").sockets(&ns), Vec::<u64>::new());
    assert_eq!(Operators::new(None).except("r2").sockets(&ns), vec![a, b]);
    assert_eq!(Operators::new(None).within(vec!["r1".to_string(), "r2".to_string()]).except("r2").sockets(&ns), vec![a, b]);
}

#[test]
fn resolve_is_within_namespace() {
    let (_, mut ns, [a, b, c]) = setup();
    ns.add_all(99, &vec!["r1".to_string()]);
    let got = Operators::new(Some(a)).to("r1").sockets(&ns);
    assert_eq!(got, vec![b]);
    assert!(!got.contains(&a));
    assert!(got.iter().all(|s| [a, b, c].contains(s)));
}

#[test]
fn to_adds_each_room_once() {
    let ops = Operators::new(None).to(vec!["a".to_string(), "b".to_string(), "a".to_string()]).to("a");
    assert_eq!(ops.opts.rooms, vec!["a".to_string(), "b".to_string(), "a".to_string()]);
    assert!(ops.opts.broadcast);
    let ops = Operators::new(None).within("x");
    assert!(!ops.opts.broadcast);
    assert_eq!(ops.opts.rooms, vec!["x".to_string()]);
    let ops = Operators::new(None).except(vec!["e".to_string(), "e".to_string()]);
    assert_eq!(ops.opts.except, vec!["e".to_string()]);
    assert!(ops.opts.broadcast);
}

#[test]
fn flags_and_binary() {
    let ops = Operators::new(Some(3)).local().timeout(100).bin(vec![vec![1, 2]]);
    assert!(ops.opts.local);
    assert_eq!(ops.opts.timeout_ms, Some(100));
    assert_eq!(ops.binary, vec![vec![1u8, 2]]);
    assert_eq!(ops.opts.sid, Some(3));
    let o = BroadcastOptions::new(None);
    assert!(o.rooms.is_empty() && o.except.is_empty() && !o.broadcast && !o.local);
}

#[test]
fn join_leave_and_disconnect() {
    let (mut engine, mut ns, [a, b, c]) = setup();
    Operators::new(None).within("r1").join(&mut ns, "r3");
    assert!(ns.in_room(a, &"r3".to_string()));
    assert!(ns.in_room(b, &"r3".to_string()));
    assert!(!ns.in_room(c, &"r3".to_string()));
    Operators::new(None).within("r3").leave(&mut ns, vec!["r1".to_string()]);
    assert!(!ns.in_room(a, &"r1".to_string()));
    assert!(ns.in_room(a, &"r3".to_string()));
    let gone = Operators::new(None).within("r2").disconnect(&mut engine, &mut ns);
    assert_eq!(gone, vec![c]);
    assert_eq!(engine.session(c).unwrap().reason(), Some(sockio::session::DisconnectReason::ServerDisconnect));
    assert!(engine.live(a));
    assert!(!ns.has_socket(c));
    assert!(!ns.in_room(c, &"r2".to_string()));
    ns.del_all(a);
    assert!(!ns.in_room(a, &"r3".to_string()));
    ns.del(b, &vec!["r3".to_string()]);
    assert!(!ns.in_room(b, &"r3".to_string()));
}

#[test]
fn event_text_forms() {
    let root = "/".to_string();
    let chat = "/chat".to_string();
    assert_eq!(text(&encode_event(&root, &"x".to_string(), &chars("1"), None, 0)), "2[\"x\",1]");
    assert_eq!(text(&encode_event(&chat, &"x".to_string(), &chars("{}"), Some(12), 0)), "2/chat,12[\"x\",{}]");
    assert_eq!(
        text(&encode_event(&root, &"a\"b\n".to_string(), &chars("null"), None, 2)),
        "52-[\"a\\\"b\\u000a\",null,{\"_placeholder\":true,\"num\":0},{\"_placeholder\":true,\"num\":1}]"
    );
}

#[test]
fn emit_with_binary_queues_attachments() {
    let (mut engine, ns, [a, b, _]) = setup();
    let r = Operators::new(Some(a)).to("r1").bin(vec![vec![1, 2, 3]]).emit(&mut engine, &ns, &"f".to_string(), &chars("0"));
    assert!(r.is_empty());
    assert_eq!(
        poll(&mut engine, b),
        Some("451-[\"f\",0,{\"_placeholder\":true,\"num\":0}]\u{1e}bAQID".to_string())
    );
}

#[test]
fn emit_reports_unreachable_sockets() {
    let (mut engine, ns, [a, b, c]) = setup();
    engine.close_session(c, sockio::session::DisconnectReason::ClientDisconnect);
    let r = Operators::new(Some(a)).broadcast().emit(&mut engine, &ns, &"x".to_string(), &chars("1"));
    assert_eq!(r, vec![(c, SendError::Closed)]);
    assert_eq!(poll(&mut engine, b), Some("42[\"x\",1]".to_string()));
}

#[test]
fn ack_timeout_yields_one_result_per_recipient() {
    let (mut engine, ns, [a, b, c]) = setup();
    let (mut acks, errors) = Operators::new(Some(c)).to("r1").timeout(100).emit_with_ack(&mut engine, &ns, &"q".to_string(), &chars("1"), 5, 5000);
    assert!(errors.is_empty());
    assert_eq!(acks.timeout_ms(), 100);
    assert_eq!(acks.ack_id(), 5);
    assert_eq!(poll(&mut engine, a), Some("425[\"q\",1]".to_string()));
    assert!(acks.on_ack(b, 5, chars("[\"ok\"]")));
    assert!(!acks.on_ack(b, 5, chars("[\"again\"]")));
    assert!(!acks.on_ack(a, 6, chars("[]")));
    assert!(!acks.on_ack(c, 5, chars("[]")));
    let results = acks.finish();
    assert_eq!(results.len(), 2);
    assert_eq!(results[0].0, a);
    assert!(matches!(results[0].1, Err(AckError::Timeout)));
    assert_eq!(results[1].0, b);
    assert!(matches!(&results[1].1, Ok(v) if text(v) == "[\"ok\"]"));
}

#[test]
fn ack_default_timeout() {
    let (mut engine, ns, [a, _, _]) = setup();
    let (acks, _) = Operators::new(Some(a)).emit_with_ack(&mut engine, &ns, &"q".to_string(), &chars("1"), 1, 5000);
    assert_eq!(acks.timeout_ms(), 5000);
    assert_eq!(acks.finish().len(), 3);
}

#[test]
fn ack_collector_of_nobody() {
    let acks = AckCollector::new(1, 10, &Vec::new());
    assert!(acks.finish().is_empty());
}

#[test]
fn rooms_from_an_array() {
    let (_, mut ns, [a, b, c]) = setup();
    ns.add_all(c, &vec!["r3".to_string()]);
    assert_eq!(Operators::new(None).within(["r1", "r3"]).sockets(&ns), vec![a, b, c]);
    let ops = Operators::new(None).to(["x", "y", "x"]);
    assert_eq!(ops.opts.rooms, vec!["x".to_string(), "y".to_string()]);
}

#[test]
fn removing_a_socket_drops_its_rooms() {
    let (_, mut ns, [a, b, c]) = setup();
    ns.remove_socket(a);
    assert!(!ns.has_socket(a));
    assert!(!ns.in_room(a, &"r1".to_string()));
    assert_eq!(Operators::new(None).sockets(&ns), vec![b, c]);
    ns.add_socket(b);
    assert_eq!(Operators::new(None).sockets(&ns), vec![b, c]);
}
