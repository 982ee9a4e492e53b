use sockio::sio::{decode_sio, encode_sio, SioKind, SioPacket};

fn chars(s: &str) -> Vec<char> {
    s.chars().collect()
}

fn text(v: &[char]) -> String {
    v.iter().collect()
}

#[test]
fn read_event_on_main_namespace() {
    let p = decode_sio(&chars("2[\"x\",1]")).unwrap();
    assert_eq!(p.kind, SioKind::Event);
    assert_eq!(text(&p.nsp), "/");
    assert_eq!(p.ack, None);
    assert_eq!(p.attachments, 0);
    assert_eq!(text(&p.data), "[\"x\",1]");
}

#[test]
fn read_ack_with_namespace() {
    let p = decode_sio(&chars("3/chat,12[\"ok\"]")).unwrap();
    assert_eq!(p.kind, SioKind::Ack);
    assert_eq!(text(&p.nsp), "/chat");
    assert_eq!(p.ack, Some(12));
    assert_eq!(text(&p.data), "[\"ok\"]");
}

#[test]
fn read_binary_event() {
    let p = decode_sio(&chars("51-/a,7[\"f\",{\"_placeholder\":true,\"num\":0}]")).unwrap();
    assert_eq!(p.kind, SioKind::BinaryEvent);
    assert_eq!(p.attachments, 1);
    assert_eq!(text(&p.nsp), "/a");
    assert_eq!(p.ack, Some(7));
}

#[test]
fn read_connect_and_disconnect() {
    let p = decode_sio(&chars("0")).unwrap();
    assert_eq!(p.kind, SioKind::Connect);
    assert_eq!(text(&p.nsp), "/");
    assert!(p.data.is_empty());
    let p = decode_sio(&chars("1/chat")).unwrap();
    assert_eq!(p.kind, SioKind::Disconnect);
    assert_eq!(text(&p.nsp), "/chat");
    assert!(p.data.is_empty());
}

#[test]
fn unreadable_socketio_packets() {
    assert!(decode_sio(&chars("")).is_none());
    assert!(decode_sio(&chars("9[]")).is_none());
    assert!(decode_sio(&chars("5-[]")).is_none());
    assert!(decode_sio(&chars("51[]")).is_none());
    assert!(decode_sio(&chars("599999999999999999999-[]")).is_none());
    assert!(decode_sio(&chars("399999999999999999999999[]")).is_none());
}

#[test]
fn socketio_packet_round_trip() {
    let packets = vec![
        SioPacket { kind: SioKind::Event, attachments: 0, nsp: chars("/"), ack: None, data: chars("[\"x\",1]") },
        SioPacket { kind: SioKind::Ack, attachments: 0, nsp: chars("/chat"), ack: Some(40), data: chars("[]") },
        SioPacket { kind: SioKind::BinaryAck, attachments: 3, nsp: chars("/"), ack: Some(0), data: chars("[{}]") },
        SioPacket { kind: SioKind::ConnectError, attachments: 0, nsp: chars("/n"), ack: None, data: chars("{\"message\":\"no\"}") },
        SioPacket { kind: SioKind::Disconnect, attachments: 0, nsp: chars("/"), ack: None, data: Vec::new() },
    ];
    let expected = ["2[\"x\",1]", "3/chat,40[]", "63-0[{}]", "4/n,{\"message\":\"no\"}", "1"];
    for (p, e) in packets.iter().zip(expected.iter()) {
        let t = encode_sio(p);
        assert_eq!(text(&t), *e);
        let q = decode_sio(&t).unwrap();
        assert_eq!(q.kind, p.kind);
        assert_eq!(q.attachments, p.attachments);
        assert_eq!(q.nsp, p.nsp);
        assert_eq!(q.ack, p.ack);
        assert_eq!(q.data, p.data);
    }
}
