//! The broker with two threads per connection.
use mqtt_broker::bytes::encode_rem;
use mqtt_broker::packet::{build_suback, build_unsuback};
use mqtt_broker::requests::{
    pkt_connect, pkt_publish, pkt_publish_qos1, pkt_subscribe, pkt_unsubscribe, pub_pkt,
};
use mqtt_broker::threaded::{
    build_forward, decode_rem, parse_connect, parse_publish, read_timeout,
    split_head, Action, Broker, Conn, RemStep, SendOutcome,
};

fn conn(token: usize) -> Conn {
    Conn { token, client_id: String::new(), keepalive: 0 }
}

/// Hands a packet of fewer than 128 bytes to the broker.
fn handle(b: &mut Broker, c: &mut Conn, packet: &[u8]) -> Action {
    let (t, flags) = split_head(packet[0]);
    b.handle_packet(c, t, flags, &packet[2..])
}

fn reply(action: Action) -> Vec<u8> {
    match action {
        Action::Reply(packet) => packet,
        _ => panic!("no reply"),
    }
}

#[test]
fn length_read_byte_by_byte() {
    for n in [0usize, 5, 127, 128, 16384, 268435455, usize::MAX] {
        let mut bytes = Vec::new();
        encode_rem(n, &mut bytes);
        let (mut rem, mut mult) = (0usize, 1usize);
        let mut result = None;
        for b in &bytes {
            assert_eq!(result, None);
            match decode_rem(rem, mult, *b) {
                RemStep::More { rem: r, mult: m } => {
                    rem = r;
                    mult = m;
                }
                RemStep::Done(v) => result = Some(v),
            }
        }
        assert_eq!(result, Some(n));
    }
}

#[test]
fn head_is_type_and_flags() {
    assert_eq!(split_head(0x3b), (3, 11));
    assert_eq!(split_head(0xe0), (14, 0));
}

#[test]
fn forward_is_always_plain() {
    assert_eq!(build_forward(b"t", b"p"), vec![0x30, 0x04, 0, 1, b't', b'p']);
}

#[test]
fn connect_body_is_read() {
    let packet = pkt_connect("abc");
    assert_eq!(parse_connect(&packet[2..]), Some(("abc".to_string(), 60)));
    assert_eq!(parse_connect(&[0; 9]), None);
    // as far as the keepalive and no further
    let short = [0, 4, b'M', b'Q', b'T', b'T', 4, 2, 0, 60];
    assert_eq!(parse_connect(&short), None);
    assert_eq!(parse_connect(&[0, 4, b'M', b'Q', b'T', b'T', 4, 2, 0, 60, 0, 9, b'x']), None);
    // the protocol name does not fit
    assert_eq!(parse_connect(&[0, 9, b'M', b'Q', b'T', b'T', 4, 2, 0, 60]), None);
    assert_eq!(parse_connect(&[0xff; 10]), None);
}

#[test]
fn publish_is_read_without_retain() {
    let packet = pub_pkt(9, "t", b"p", 1, true);
    assert_eq!(
        parse_publish(packet[0] & 0x0f, &packet[2..]),
        Some(("t".to_string(), 1, Some(9), b"p".to_vec()))
    );
    assert_eq!(parse_publish(0, &[0, 0]), None);
}

#[test]
fn read_timeouts() {
    assert_eq!(read_timeout(0), None);
    assert_eq!(read_timeout(1), Some(1));
    assert_eq!(read_timeout(60), Some(90));
    assert_eq!(read_timeout(65535), Some(98302));
}

#[test]
fn connection_from_connect_to_leave() {
    let mut b = Broker::new();
    let mut a = conn(1);
    let mut c = conn(2);
    assert_eq!(reply(handle(&mut b, &mut a, &pkt_connect("a"))), vec![0x20, 2, 0, 0]);
    assert_eq!(reply(handle(&mut b, &mut c, &pkt_connect("c"))), vec![0x20, 2, 0, 0]);
    assert_eq!(a.client_id, "a");
    assert_eq!(a.keepalive, 60);
    assert_eq!(b.client_ids, vec!["a".to_string(), "c".to_string()]);

    assert_eq!(
        reply(handle(&mut b, &mut a, &pkt_subscribe(3, "x/#", 1))),
        build_suback(3, &[1])
    );
    assert_eq!(
        reply(handle(&mut b, &mut c, &pkt_subscribe(4, "x/y", 0))),
        build_suback(4, &[0])
    );
    assert_eq!(b.targets("x/y"), vec![1, 2]);
    assert_eq!(b.targets("x/z"), vec![1]);
    assert_eq!(reply(handle(&mut b, &mut a, &[0xc0, 0])), vec![0xd0, 0]);

    assert_eq!(
        reply(handle(&mut b, &mut c, &pkt_unsubscribe(5, "x/y"))),
        build_unsuback(5)
    );
    assert_eq!(b.targets("x/y"), vec![1]);
    b.leave(&a);
    assert!(b.subs.is_empty());
    assert_eq!(b.client_ids, vec!["c".to_string()]);
}

#[test]
fn publish_actions() {
    let mut b = Broker::new();
    let mut c = conn(1);
    match handle(&mut b, &mut c, &pkt_publish("t", b"p", 0)) {
        Action::Publish { ack, topic, payload } => {
            assert_eq!(ack, None);
            assert_eq!(topic, "t");
            assert_eq!(payload, b"p");
        }
        _ => panic!("no publish"),
    }
    match handle(&mut b, &mut c, &pkt_publish_qos1(7, "t", b"p")) {
        Action::Publish { ack, .. } => assert_eq!(ack, Some(vec![0x40, 2, 0, 7])),
        _ => panic!("no publish"),
    }
    match handle(&mut b, &mut c, &pub_pkt(7, "t", b"p", 2, false)) {
        Action::Publish { ack, .. } => assert_eq!(ack, None),
        _ => panic!("no publish"),
    }
}

#[test]
fn connection_is_closed() {
    let mut b = Broker::new();
    let mut c = conn(1);
    for packet in [
        vec![0x10, 0],
        vec![0x10, 10, 0, 9, b'M', b'Q', b'T', b'T', 4, 2, 0, 60],
        vec![0x82, 1, 0],
        vec![0xa2, 1, 0],
        vec![0x30, 2, 0, 0],
        vec![0xe0, 0],
        vec![0x40, 2, 0, 1],
        vec![0xf0, 0],
    ] {
        assert!(matches!(handle(&mut b, &mut c, &packet), Action::Close));
    }
    assert!(b.subs.is_empty() && b.client_ids.is_empty());
}

#[test]
fn outcomes_of_a_publication() {
    let mut b = Broker::new();
    b.subscribe("a".to_string(), 0, 1);
    b.subscribe("b".to_string(), 0, 2);
    b.subscribe("#".to_string(), 0, 3);
    b.subscribe("+".to_string(), 1, 4);
    assert_eq!(b.targets("a"), vec![1, 3, 4]);
    let outcomes = vec![SendOutcome::Full, SendOutcome::Disconnected, SendOutcome::Sent];
    assert_eq!(b.publish("a", &outcomes), (1, 1));
    assert_eq!((b.drops, b.dead_subs), (1, 1));
    let left: Vec<usize> = b.subs.iter().map(|s| s.token).collect();
    assert_eq!(left, vec![1, 2, 4]);
    assert_eq!(b.publish("a", &vec![SendOutcome::Sent, SendOutcome::Sent]), (2, 0));
}

#[test]
fn unsubscribe_and_disconnect() {
    let mut b = Broker::new();
    b.subscribe("a".to_string(), 0, 1);
    b.subscribe("a".to_string(), 0, 2);
    b.subscribe("b".to_string(), 0, 1);
    b.unsubscribe(&"a".to_string(), 1);
    let left: Vec<(String, usize)> = b.subs.iter().map(|s| (s.filter.clone(), s.token)).collect();
    assert_eq!(left, vec![("a".to_string(), 2), ("b".to_string(), 1)]);
    b.disconnect_client(1);
    assert_eq!(b.targets("b"), vec![]);
    assert_eq!(b.targets("a"), vec![2]);
}
